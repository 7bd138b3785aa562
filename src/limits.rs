use vstd::prelude::*;
use vstd::string::StrSliceExecFns;

verus! {

/// `name` ends in a dot followed by `ext`, with at least one char before that
/// dot, and `ext` holds no dot: the dot is then the last one of `name`, so
/// `ext` is the name's extension, compared case by case.
pub open spec fn has_extension(name: Seq<char>, ext: Seq<char>) -> bool {
    &&& !ext.contains('.')
    &&& name.len() > ext.len() + 1
    &&& name[name.len() - ext.len() - 1] == '.'
    &&& name.subrange(name.len() - ext.len(), name.len() as int) == ext
}

/// Whether the file called `name` has the extension `ext`.
pub fn has_extension_exec(name: &String, ext: &String) -> (r: bool)
    ensures
        r == has_extension(name@, ext@),
{
    let nm = name.as_str();
    let ex = ext.as_str();
    let n = nm.unicode_len();
    let e = ex.unicode_len();
    let mut k: usize = 0;
    while k < e
        invariant
            e == ext@.len(),
            ex@ == ext@,
            k <= e,
            forall|j: int| 0 <= j < k ==> ext@[j] != '.',
        decreases e - k,
    {
        if ex.get_char(k) == '.' {
            assert(ext@.contains('.'));
            return false;
        }
        k = k + 1;
    }
    assert(!ext@.contains('.'));
    if n <= e || n - e <= 1 {
        return false;
    }
    if nm.get_char(n - e - 1) != '.' {
        return false;
    }
    let mut j: usize = 0;
    while j < e
        invariant
            e == ext@.len(),
            n == name@.len(),
            nm@ == name@,
            ex@ == ext@,
            n > e + 1,
            j <= e,
            forall|i: int| 0 <= i < j ==> name@[n - e + i] == ext@[i],
        decreases e - j,
    {
        if nm.get_char(n - e + j) != ex.get_char(j) {
            assert(name@.subrange(n - e, n as int)[j as int] != ext@[j as int]);
            return false;
        }
        j = j + 1;
    }
    assert(name@.subrange(n - e, n as int) =~= ext@);
    true
}

/// Bytes that a single file may have and still be collected.
pub const DEFAULT_MAX_FILE_SIZE: u64 = 10485760;

/// Bytes that one directory's collection may reach in all.
pub const DEFAULT_MAX_TOTAL_SIZE: u64 = 104857600;

/// The ceilings and the file extension that govern one collection.
pub struct Limits {
    pub max_file_size: u64,
    pub max_total_size: u64,
    pub extension: String,
}

/// The ceilings and the extension, as values of specifications.
pub struct LimitsV {
    pub max_file_size: int,
    pub max_total_size: int,
    pub extension: Seq<char>,
}

impl View for Limits {
    type V = LimitsV;

    open spec fn view(&self) -> LimitsV {
        LimitsV {
            max_file_size: self.max_file_size as int,
            max_total_size: self.max_total_size as int,
            extension: self.extension@,
        }
    }
}

/// Ten MiB per file, one hundred MiB in all, files ending in `.md`.
pub open spec fn markdown_limits() -> LimitsV {
    LimitsV {
        max_file_size: DEFAULT_MAX_FILE_SIZE as int,
        max_total_size: DEFAULT_MAX_TOTAL_SIZE as int,
        extension: seq!['m', 'd'],
    }
}

impl Limits {
    /// Ten MiB per file, one hundred MiB in all, files ending in `.md`.
    pub fn markdown() -> (r: Limits)
        ensures
            r@ == markdown_limits(),
    {
        let extension = "md".to_owned();
        proof {
            reveal_strlit("md");
            assert(extension@ =~= seq!['m', 'd']);
        }
        Limits { max_file_size: DEFAULT_MAX_FILE_SIZE, max_total_size: DEFAULT_MAX_TOTAL_SIZE, extension }
    }
}

} // verus!
