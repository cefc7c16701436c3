use vstd::prelude::*;

use crate::text::{is_space, is_space_char};

verus! {

/// The error returned when a supplied file extension is blank after
/// trimming.
#[derive(Debug, Clone)]
pub struct EmptyFileExtensionError;

/// A file extension to search for, held trimmed and non-empty.
#[derive(Clone, Debug)]
pub struct FileExtension {
    pub extension: String,
}

/// The string with its leading whitespace removed.
pub open spec fn trim_front(s: Seq<char>) -> Seq<char>
    decreases s.len(),
{
    if s.len() > 0 && is_space(s[0]) {
        trim_front(s.drop_first())
    } else {
        s
    }
}

/// The string with its trailing whitespace removed.
pub open spec fn trim_back(s: Seq<char>) -> Seq<char>
    decreases s.len(),
{
    if s.len() > 0 && is_space(s.last()) {
        trim_back(s.drop_last())
    } else {
        s
    }
}

/// The string with whitespace removed from both ends.
pub open spec fn trimmed(s: Seq<char>) -> Seq<char> {
    trim_back(trim_front(s))
}

proof fn lemma_trim_front(s: Seq<char>, a: int)
    requires
        0 <= a <= s.len(),
        forall|k: int| 0 <= k < a ==> is_space(s[k]),
        a < s.len() ==> !is_space(s[a]),
    ensures
        trim_front(s) =~= s.skip(a),
    decreases a,
{
    if a > 0 {
        assert(forall|k: int|
            0 <= k < a - 1 ==> s.drop_first()[k] == s[k + 1] && is_space(s[k + 1]));
        lemma_trim_front(s.drop_first(), a - 1);
        assert(s.drop_first().skip(a - 1) =~= s.skip(a));
    } else {
        assert(s.skip(0) =~= s);
    }
}

proof fn lemma_trim_back(s: Seq<char>, b: int)
    requires
        0 <= b <= s.len(),
        forall|k: int| b <= k < s.len() ==> is_space(s[k]),
        b > 0 ==> !is_space(s[b - 1]),
    ensures
        trim_back(s) =~= s.take(b),
    decreases s.len(),
{
    if s.len() > 0 && is_space(s.last()) {
        assert(b < s.len());
        assert(forall|k: int| b <= k < s.len() - 1 ==> s.drop_last()[k] == s[k]);
        lemma_trim_back(s.drop_last(), b);
        assert(s.drop_last().take(b) =~= s.take(b));
    } else {
        assert(b == s.len());
        assert(s.take(b) =~= s);
    }
}

impl FileExtension {
    /// Accepts an extension after trimming surrounding whitespace; a
    /// string that is blank after trimming is rejected.
    pub fn new(extension: &str) -> (r: Result<FileExtension, EmptyFileExtensionError>)
        ensures
            r is Ok <==> trimmed(extension@).len() > 0,
            (r matches Ok(fe) ==> fe.extension@ == trimmed(extension@)),
    {
        let len = extension.unicode_len();
        let mut a: usize = 0;
        while a < len && is_space_char(extension.get_char(a))
            invariant
                len == extension@.len(),
                a <= len,
                forall|k: int| 0 <= k < a ==> is_space(extension@[k]),
            decreases len - a,
        {
            a = a + 1;
        }
        proof {
            lemma_trim_front(extension@, a as int);
        }
        if a == len {
            proof {
                assert(extension@.skip(a as int).len() == 0);
                assert(trimmed(extension@).len() == 0);
            }
            return Err(EmptyFileExtensionError);
        }
        let mut b: usize = len;
        while b > a && is_space_char(extension.get_char(b - 1))
            invariant
                len == extension@.len(),
                a <= b <= len,
                forall|k: int| b <= k < len ==> is_space(extension@[k]),
            decreases b,
        {
            b = b - 1;
        }
        proof {
            assert(!is_space(extension@[a as int]));
            assert(b > a);
            let t = extension@.skip(a as int);
            assert(forall|k: int| 0 <= k < t.len() ==> t[k] == extension@[k + a]);
            lemma_trim_back(t, b - a);
            assert(t.take(b - a) =~= extension@.subrange(a as int, b as int));
        }
        let e = extension.substring_char(a, b);
        proof {
            assert(e@ == trimmed(extension@));
            assert(e@.len() > 0);
        }
        Ok(FileExtension { extension: String::from_str(e) })
    }

    /// The glob pattern that finds this extension's files at any depth.
    pub fn get_glob(&self) -> (r: String)
        ensures
            r@ == "**/*."@ + self.extension@,
    {
        let mut r = String::from_str("**/*.");
        r.append(self.extension.as_str());
        r
    }
}

} // verus!
