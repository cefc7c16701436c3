use vstd::prelude::*;

use crate::sql_file::{SqlFile, SqlFileV};
use crate::text::{is_space, is_space_char};

verus! {

/// One step of a formatter chain: which fragment of the record it renders.
#[derive(Debug, Clone, Copy, PartialEq, Eq, Structural)]
pub enum Fragment {
    Name,
    Split,
    PlainText,
    NoComments,
    Endln,
}

/// How many whitespace characters stand at the front of `s`.
pub open spec fn leading_space_len(s: Seq<char>) -> nat
    decreases s.len(),
{
    if s.len() == 0 || !is_space(s[0]) {
        0
    } else {
        1 + leading_space_len(s.drop_first())
    }
}

/// Whether `s` begins with the word `use`, in any mix of case.
pub open spec fn is_use_word(s: Seq<char>) -> bool {
    s.len() >= 3 && (s[0] == 'u' || s[0] == 'U') && (s[1] == 's' || s[1] == 'S') && (s[2] == 'e'
        || s[2] == 'E')
}

/// The length of the comment marker at the front of `s`: two dashes, one
/// or more whitespace characters, then `use` in any case. `0` when no such
/// marker stands there.
pub open spec fn marker_len(s: Seq<char>) -> int {
    if s.len() >= 2 && s[0] == '-' && s[1] == '-' {
        let w = leading_space_len(s.skip(2)) as int;
        if w >= 1 && is_use_word(s.skip(2 + w)) {
            2 + w + 3
        } else {
            0
        }
    } else {
        0
    }
}

/// The text with every comment marker rewritten to the bare token `USE`,
/// scanning left to right; all other characters pass through unchanged.
pub open spec fn strip_use_comments(s: Seq<char>) -> Seq<char>
    decreases s.len(),
{
    if s.len() == 0 {
        Seq::empty()
    } else {
        let m = marker_len(s);
        if 6 <= m <= s.len() {
            seq!['U', 'S', 'E'] + strip_use_comments(s.skip(m))
        } else {
            seq![s[0]] + strip_use_comments(s.drop_first())
        }
    }
}

/// The text of one fragment of the chain, rendered from a record.
pub open spec fn fragment_text(f: Fragment, v: SqlFileV) -> Seq<char> {
    match f {
        Fragment::Name => "-- "@ + v.name,
        Fragment::Split => "\n"@,
        Fragment::PlainText => v.text,
        Fragment::NoComments => strip_use_comments(v.text),
        Fragment::Endln => "--____________________ End of "@ + v.name + " ____________________--"@,
    }
}

/// A whole chain's text: the fragments in chain order, joined with one
/// newline between consecutive fragments and nothing after the last.
pub open spec fn chain_text(chain: Seq<Fragment>, v: SqlFileV) -> Seq<char>
    decreases chain.len(),
{
    if chain.len() == 0 {
        Seq::empty()
    } else if chain.len() == 1 {
        fragment_text(chain[0], v)
    } else {
        fragment_text(chain[0], v) + "\n"@ + chain_text(chain.drop_first(), v)
    }
}

/// The `-- <name>` header line.
pub fn format_name(sql_file: &SqlFile) -> (r: String)
    ensures
        r@ == fragment_text(Fragment::Name, sql_file@),
{
    let mut r = String::from_str("-- ");
    r.append(sql_file.get_file_name());
    r
}

/// A blank separator fragment.
pub fn format_split(sql_file: &SqlFile) -> (r: String)
    ensures
        r@ == fragment_text(Fragment::Split, sql_file@),
{
    String::from_str("\n")
}

/// The file's literal content, verbatim.
pub fn format_plain_text(sql_file: &SqlFile) -> (r: String)
    ensures
        r@ == fragment_text(Fragment::PlainText, sql_file@),
{
    String::from_str(sql_file.get_sql_text())
}

proof fn lemma_leading_space_len(t: Seq<char>, w: int)
    requires
        0 <= w <= t.len(),
        forall|k: int| 0 <= k < w ==> is_space(t[k]),
        w < t.len() ==> !is_space(t[w]),
    ensures
        leading_space_len(t) == w,
    decreases w,
{
    if w > 0 {
        assert(forall|k: int|
            0 <= k < w - 1 ==> t.drop_first()[k] == t[k + 1] && is_space(t[k + 1]));
        lemma_leading_space_len(t.drop_first(), w - 1);
    }
}

fn marker_len_at(s: &str, i: usize) -> (m: usize)
    requires
        i < s@.len(),
    ensures
        m as int == marker_len(s@.skip(i as int)),
        i + m <= s@.len(),
{
    let len = s.unicode_len();
    let ghost t = s@.skip(i as int);
    proof {
        assert(forall|q: int| 0 <= q < t.len() ==> t[q] == s@[i + q]);
    }
    if len - i < 2 {
        return 0;
    }
    if s.get_char(i) != '-' || s.get_char(i + 1) != '-' {
        return 0;
    }
    let mut j: usize = i + 2;
    while j < len && is_space_char(s.get_char(j))
        invariant
            len == s@.len(),
            i + 2 <= j <= len,
            forall|k: int| i + 2 <= k < j ==> is_space(s@[k]),
        decreases len - j,
    {
        j = j + 1;
    }
    let ghost w = j - (i + 2);
    proof {
        let tw = t.skip(2);
        assert(forall|q: int| 0 <= q < tw.len() ==> tw[q] == s@[i + 2 + q]);
        lemma_leading_space_len(tw, w as int);
    }
    if j == i + 2 {
        return 0;
    }
    if len - j < 3 {
        proof {
            assert(!is_use_word(t.skip(2 + w as int))) by {
                assert(t.skip(2 + w as int).len() < 3);
            }
        }
        return 0;
    }
    let c0 = s.get_char(j);
    let c1 = s.get_char(j + 1);
    let c2 = s.get_char(j + 2);
    proof {
        let tu = t.skip(2 + w as int);
        assert(forall|q: int| 0 <= q < tu.len() ==> tu[q] == s@[j + q]);
    }
    if (c0 == 'u' || c0 == 'U') && (c1 == 's' || c1 == 'S') && (c2 == 'e' || c2 == 'E') {
        j + 3 - i
    } else {
        0
    }
}

/// The file's content with every `-- use` comment marker rewritten to the
/// bare token `USE`, so that the statement it hides executes.
pub fn format_no_comments(sql_file: &SqlFile) -> (r: String)
    ensures
        r@ == fragment_text(Fragment::NoComments, sql_file@),
{
    let s = sql_file.get_sql_text();
    let len = s.unicode_len();
    let mut out = String::new();
    let mut i: usize = 0;
    proof {
        assert(s@.skip(0) =~= s@);
    }
    while i < len
        invariant
            len == s@.len(),
            i <= len,
            out@ + strip_use_comments(s@.skip(i as int)) == strip_use_comments(s@),
        decreases len - i,
    {
        let ghost out0 = out@;
        let m = marker_len_at(s, i);
        if m > 0 {
            out.append("USE");
            proof {
                reveal_strlit("USE");
                assert("USE"@ =~= seq!['U', 'S', 'E']);
                assert(s@.skip(i as int).skip(m as int) =~= s@.skip(i as int + m as int));
                assert(strip_use_comments(s@.skip(i as int)) == seq!['U', 'S', 'E']
                    + strip_use_comments(s@.skip(i as int + m as int)));
                assert(out@ + strip_use_comments(s@.skip(i as int + m as int)) =~= out0
                    + strip_use_comments(s@.skip(i as int)));
            }
            i = i + m;
        } else {
            let c = s.get_char(i);
            out.push(c);
            proof {
                assert(s@.skip(i as int)[0] == s@[i as int]);
                assert(s@.skip(i as int).drop_first() =~= s@.skip(i as int + 1));
                assert(strip_use_comments(s@.skip(i as int)) == seq![c] + strip_use_comments(
                    s@.skip(i as int + 1),
                ));
                assert(out@ + strip_use_comments(s@.skip(i as int + 1)) =~= out0
                    + strip_use_comments(s@.skip(i as int)));
            }
            i = i + 1;
        }
    }
    proof {
        assert(strip_use_comments(s@.skip(len as int)) =~= Seq::<char>::empty());
        assert(out@ + strip_use_comments(s@.skip(len as int)) =~= out@);
    }
    out
}

/// The `--____ End of <name> ____--` footer banner.
pub fn format_endln(sql_file: &SqlFile) -> (r: String)
    ensures
        r@ == fragment_text(Fragment::Endln, sql_file@),
{
    let mut r = String::from_str("--____________________ End of ");
    r.append(sql_file.get_file_name());
    r.append(" ____________________--");
    r
}

fn render_fragment(f: Fragment, sql_file: &SqlFile) -> (r: String)
    ensures
        r@ == fragment_text(f, sql_file@),
{
    match f {
        Fragment::Name => format_name(sql_file),
        Fragment::Split => format_split(sql_file),
        Fragment::PlainText => format_plain_text(sql_file),
        Fragment::NoComments => format_no_comments(sql_file),
        Fragment::Endln => format_endln(sql_file),
    }
}

/// An ordered chain of fragment renderers, fixed per formatting mode.
pub struct FileFormatters {
    formatters: Vec<Fragment>,
}

impl View for FileFormatters {
    type V = Seq<Fragment>;

    closed spec fn view(&self) -> Seq<Fragment> {
        self.formatters@
    }
}

/// The standard chain: header, separators, the content verbatim,
/// separators, the footer banner, and a trailing separator.
pub open spec fn standard_chain() -> Seq<Fragment> {
    seq![
        Fragment::Name,
        Fragment::Split,
        Fragment::Split,
        Fragment::PlainText,
        Fragment::Split,
        Fragment::Split,
        Fragment::Endln,
        Fragment::Split,
    ]
}

/// The comment-stripping chain: the standard chain with the verbatim
/// content replaced by the `-- use`-rewriting transform.
pub open spec fn no_comments_chain() -> Seq<Fragment> {
    seq![
        Fragment::Name,
        Fragment::Split,
        Fragment::Split,
        Fragment::NoComments,
        Fragment::Split,
        Fragment::Split,
        Fragment::Endln,
        Fragment::Split,
    ]
}

impl FileFormatters {
    /// A chain of the given fragments, evaluated in the given order.
    pub fn test_new(formatters: Vec<Fragment>) -> (r: FileFormatters)
        ensures
            r@ == formatters@,
    {
        FileFormatters { formatters }
    }

    /// The standard formatting mode.
    pub fn standard() -> (r: FileFormatters)
        ensures
            r@ == standard_chain(),
    {
        let mut v: Vec<Fragment> = Vec::new();
        v.push(Fragment::Name);
        v.push(Fragment::Split);
        v.push(Fragment::Split);
        v.push(Fragment::PlainText);
        v.push(Fragment::Split);
        v.push(Fragment::Split);
        v.push(Fragment::Endln);
        v.push(Fragment::Split);
        proof {
            assert(v@ =~= standard_chain());
        }
        FileFormatters { formatters: v }
    }

    /// The comment-stripping formatting mode.
    pub fn no_comments() -> (r: FileFormatters)
        ensures
            r@ == no_comments_chain(),
    {
        let mut v: Vec<Fragment> = Vec::new();
        v.push(Fragment::Name);
        v.push(Fragment::Split);
        v.push(Fragment::Split);
        v.push(Fragment::NoComments);
        v.push(Fragment::Split);
        v.push(Fragment::Split);
        v.push(Fragment::Endln);
        v.push(Fragment::Split);
        proof {
            assert(v@ =~= no_comments_chain());
        }
        FileFormatters { formatters: v }
    }

    /// Renders one record: each fragment of the chain in order, joined
    /// with newlines. A pure text transform that never fails.
    pub fn format(&self, sql_file: &SqlFile) -> (r: String)
        ensures
            r@ == chain_text(self@, sql_file@),
    {
        let n = self.formatters.len();
        let mut out = String::new();
        if n == 0 {
            return out;
        }
        let mut i: usize = 0;
        proof {
            assert(self@.skip(0) =~= self@);
        }
        while i < n
            invariant
                n == self@.len(),
                i < n,
                out@ + chain_text(self@.skip(i as int), sql_file@) == chain_text(
                    self@,
                    sql_file@,
                ),
            decreases n - i,
        {
            let ghost out0 = out@;
            let frag = render_fragment(self.formatters[i], sql_file);
            out.append(frag.as_str());
            proof {
                assert(self@.skip(i as int)[0] == self@[i as int]);
                assert(self@.skip(i as int).drop_first() =~= self@.skip(i as int + 1));
            }
            if i + 1 == n {
                proof {
                    assert(self@.skip(i as int).len() == 1);
                    assert(chain_text(self@.skip(i as int), sql_file@) == fragment_text(
                        self@[i as int],
                        sql_file@,
                    ));
                }
                return out;
            }
            out.append("\n");
            proof {
                assert(self@.skip(i as int).len() >= 2);
                assert(chain_text(self@.skip(i as int), sql_file@) == fragment_text(
                    self@[i as int],
                    sql_file@,
                ) + "\n"@ + chain_text(self@.skip(i as int + 1), sql_file@));
                assert(out@ + chain_text(self@.skip(i as int + 1), sql_file@) =~= out0
                    + chain_text(self@.skip(i as int), sql_file@));
            }
            i = i + 1;
        }
        out
    }
}

/// Formatting is a pure function of the chain and the record: rendering
/// the same record twice with the same chain yields byte-identical text.
pub proof fn lemma_format_deterministic(
    chain: Seq<Fragment>,
    v: SqlFileV,
    r1: Seq<char>,
    r2: Seq<char>,
)
    requires
        r1 == chain_text(chain, v),
        r2 == chain_text(chain, v),
    ensures
        r1 == r2,
{
}

} // verus!
