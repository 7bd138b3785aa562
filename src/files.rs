use vstd::prelude::*;

verus! {

/// A name paired with a content, as chars.
pub type Pair = (Seq<char>, Seq<char>);

/// No two pairs of `s` have the same name.
pub open spec fn keys_unique(s: Seq<Pair>) -> bool {
    forall|i: int, j: int| 0 <= i < j < s.len() ==> s[i].0 != s[j].0
}

/// `s` holds a pair named `k`.
pub open spec fn has_key(s: Seq<Pair>, k: Seq<char>) -> bool {
    exists|i: int| 0 <= i < s.len() && s[i].0 == k
}

/// The last position of `s` whose name is `k`, or -1 where there is none.
pub open spec fn key_index(s: Seq<Pair>, k: Seq<char>) -> int
    decreases s.len(),
{
    if s.len() == 0 {
        -1
    } else if s.last().0 == k {
        s.len() - 1
    } else {
        key_index(s.drop_last(), k)
    }
}

/// `key_index` finds a position of the name exactly where one exists.
pub proof fn lemma_key_index(s: Seq<Pair>, k: Seq<char>)
    ensures
        key_index(s, k) == -1 <==> !has_key(s, k),
        key_index(s, k) != -1 ==> 0 <= key_index(s, k) < s.len() && s[key_index(s, k)].0 == k,
    decreases s.len(),
{
    if s.len() > 0 {
        lemma_key_index(s.drop_last(), k);
        if has_key(s.drop_last(), k) {
            let i = choose|i: int| 0 <= i < s.drop_last().len() && s.drop_last()[i].0 == k;
            assert(s[i].0 == k);
        }
        if s.last().0 != k && has_key(s, k) {
            let i = choose|i: int| 0 <= i < s.len() && s[i].0 == k;
            assert(s.drop_last()[i].0 == k);
        }
    }
}

/// `s` with `k` bound to `v`: the pair of that name is replaced where it stands,
/// else the new pair goes last.
pub open spec fn insert_pair(s: Seq<Pair>, k: Seq<char>, v: Seq<char>) -> Seq<Pair> {
    let i = key_index(s, k);
    if i >= 0 {
        s.update(i, (k, v))
    } else {
        s.push((k, v))
    }
}

/// Where `s` already holds the name `k`, binding it replaces that pair.
pub proof fn lemma_insert_existing(s: Seq<Pair>, k: Seq<char>, v: Seq<char>) -> (c: int)
    requires
        has_key(s, k),
    ensures
        0 <= c < s.len(),
        s[c].0 == k,
        insert_pair(s, k, v) == s.update(c, (k, v)),
{
    lemma_key_index(s, k);
    key_index(s, k)
}

/// The names of `s` with their contents, as a map.
pub open spec fn pairs_to_map(s: Seq<Pair>) -> Map<Seq<char>, Seq<char>>
    decreases s.len(),
{
    if s.len() == 0 {
        Map::empty()
    } else {
        pairs_to_map(s.drop_last()).insert(s.last().0, s.last().1)
    }
}

/// A collection of files: each base name with its content, no name twice, in
/// the order in which the names first came in.
pub struct FileMap {
    entries: Vec<(String, String)>,
}

impl View for FileMap {
    type V = Seq<Pair>;

    closed spec fn view(&self) -> Seq<Pair> {
        self.entries@.map_values(|p: (String, String)| (p.0@, p.1@))
    }
}

impl FileMap {
    /// The collection that holds no file.
    pub fn new() -> (r: FileMap)
        ensures
            r@ == Seq::<Pair>::empty(),
    {
        let r = FileMap { entries: Vec::new() };
        assert(r@ =~= Seq::<Pair>::empty());
        r
    }

    /// Binds `name` to `content`, replacing what the name held before.
    pub fn insert(&mut self, name: String, content: String)
        requires
            keys_unique(old(self)@),
        ensures
            final(self)@ == insert_pair(old(self)@, name@, content@),
            keys_unique(final(self)@),
    {
        let ghost s = self@;
        let ghost nv = name@;
        let ghost cv = content@;
        let n = self.entries.len();
        let mut i: usize = 0;
        while i < n
            invariant
                n == self.entries.len(),
                s == self@,
                s == old(self)@,
                nv == name@,
                cv == content@,
                keys_unique(s),
                i <= n,
                forall|j: int| 0 <= j < i ==> s[j].0 != name@,
            decreases n - i,
        {
            if self.entries[i].0 == name {
                assert(s[i as int].0 == nv);
                assert(has_key(s, nv));
                proof {
                    let c = lemma_insert_existing(s, nv, cv);
                    assert(c == i);
                }
                self.entries.set(i, (name, content));
                assert(self@ =~= s.update(i as int, (nv, cv)));
                return;
            }
            i = i + 1;
        }
        self.entries.push((name, content));
        assert(!has_key(s, nv));
        proof {
            lemma_key_index(s, nv);
        }
        assert(self@ =~= s.push((nv, cv)));
    }

    /// The number of files.
    pub fn len(&self) -> (r: usize)
        ensures
            r == self@.len(),
    {
        self.entries.len()
    }

    /// The files, each as its name and its content.
    pub fn entries(&self) -> (r: &Vec<(String, String)>)
        ensures
            r@.len() == self@.len(),
            forall|i: int| 0 <= i < r@.len() ==> (#[trigger] r@[i]).0@ == self@[i].0 && r@[i].1@ == self@[i].1,
    {
        &self.entries
    }

    /// Gives up the files, each as its name and its content.
    pub fn into_entries(self) -> (r: Vec<(String, String)>)
        ensures
            r@.len() == self@.len(),
            forall|i: int| 0 <= i < r@.len() ==> (#[trigger] r@[i]).0@ == self@[i].0 && r@[i].1@ == self@[i].1,
    {
        self.entries
    }
}

} // verus!
