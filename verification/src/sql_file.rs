use vstd::prelude::*;

use crate::sorter::base_name;

verus! {

/// The loaded content of one discovered file: its name (the file stem,
/// without directory or extension) and its full text. Immutable once
/// constructed.
#[derive(Debug, Clone)]
pub struct SqlFile {
    file_name: String,
    sql_text: String,
}

/// The mathematical value of a `SqlFile`: its two character sequences.
pub struct SqlFileV {
    pub name: Seq<char>,
    pub text: Seq<char>,
}

impl View for SqlFile {
    type V = SqlFileV;

    closed spec fn view(&self) -> SqlFileV {
        SqlFileV { name: self.file_name@, text: self.sql_text@ }
    }
}

impl SqlFile {
    /// Builds the record directly from its two parts.
    pub fn test_new(file_name: &str, sql_text: &str) -> (r: SqlFile)
        ensures
            r@.name == file_name@,
            r@.text == sql_text@,
    {
        SqlFile { file_name: String::from_str(file_name), sql_text: String::from_str(sql_text) }
    }

    pub fn get_file_name(&self) -> (r: &str)
        ensures
            r@ == self@.name,
    {
        self.file_name.as_str()
    }

    pub fn get_sql_text(&self) -> (r: &str)
        ensures
            r@ == self@.text,
    {
        self.sql_text.as_str()
    }
}

/// The position just after the last `.` of a name, if it has one.
pub open spec fn last_dot(b: Seq<char>) -> Option<int>
    decreases b.len(),
{
    if b.len() == 0 {
        None
    } else if b.last() == '.' {
        Some(b.len() - 1)
    } else {
        last_dot(b.drop_last())
    }
}

/// The stem of a file's name: what stands before its last `.`, except that
/// a `.` at the very front (a hidden file) does not begin an extension.
pub open spec fn stem_of(b: Seq<char>) -> Seq<char> {
    match last_dot(b) {
        Some(j) => if j >= 1 {
            b.take(j)
        } else {
            b
        },
        None => b,
    }
}

proof fn lemma_last_dot_at(b: Seq<char>, j: int)
    requires
        0 <= j < b.len(),
        b[j] == '.',
        forall|k: int| j < k < b.len() ==> b[k] != '.',
    ensures
        last_dot(b) == Some(j),
    decreases b.len(),
{
    if j < b.len() - 1 {
        assert(b.last() != '.');
        assert(forall|k: int| j < k < b.len() - 1 ==> b.drop_last()[k] == b[k]);
        lemma_last_dot_at(b.drop_last(), j);
    }
}

proof fn lemma_last_dot_none(b: Seq<char>)
    requires
        forall|k: int| 0 <= k < b.len() ==> b[k] != '.',
    ensures
        last_dot(b) == None::<int>,
    decreases b.len(),
{
    if b.len() > 0 {
        assert(forall|k: int| 0 <= k < b.len() - 1 ==> b.drop_last()[k] == b[k]);
        lemma_last_dot_none(b.drop_last());
    }
}

/// The file stem a path yields: the base name with its extension dropped.
/// `None` exactly when the path has no base name at all.
pub fn file_stem(path: &str) -> (r: Option<String>)
    ensures
        match r {
            Some(s) => base_name(path@).len() > 0 && s@ == stem_of(base_name(path@)),
            None => base_name(path@).len() == 0,
        },
{
    let b = crate::sorter::base_name_str(path);
    let len = b.unicode_len();
    if len == 0 {
        return None;
    }
    match crate::text::last_index_of(b, '.') {
        None => {
            proof {
                lemma_last_dot_none(b@);
            }
            Some(String::from_str(b))
        },
        Some(j) => {
            proof {
                lemma_last_dot_at(b@, j as int);
            }
            if j == 0 {
                Some(String::from_str(b))
            } else {
                let s = b.substring_char(0, j);
                proof {
                    assert(s@ =~= b@.take(j as int));
                }
                Some(String::from_str(s))
            }
        },
    }
}

} // verus!
