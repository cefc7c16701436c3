use vstd::prelude::*;

use core::cmp::Ordering;

verus! {

/// A sort key derived from a file path: either a number taken from the
/// file's name or a piece of text such as its containing directory.
/// Every `Num` key orders strictly below every `Text` key.
#[derive(Debug, Clone, PartialEq, Eq)]
pub enum Key {
    Num(i32),
    Text(String),
}

/// The mathematical value of a `Key`: an unbounded integer or a sequence
/// of characters.
pub enum KeyV {
    Num(int),
    Text(Seq<char>),
}

impl View for Key {
    type V = KeyV;

    open spec fn view(&self) -> KeyV {
        match self {
            Key::Num(n) => KeyV::Num(*n as int),
            Key::Text(s) => KeyV::Text(s@),
        }
    }
}

/// Lexicographic comparison of two character sequences, by Unicode scalar
/// value, with a proper prefix ordering below the longer sequence.
pub open spec fn seq_char_cmp(a: Seq<char>, b: Seq<char>) -> Ordering
    decreases a.len(),
{
    if a.len() == 0 && b.len() == 0 {
        Ordering::Equal
    } else if a.len() == 0 {
        Ordering::Less
    } else if b.len() == 0 {
        Ordering::Greater
    } else if (a[0] as u32) < (b[0] as u32) {
        Ordering::Less
    } else if (b[0] as u32) < (a[0] as u32) {
        Ordering::Greater
    } else {
        seq_char_cmp(a.drop_first(), b.drop_first())
    }
}

/// The total order on keys: numbers by value, text lexicographically,
/// and any number strictly below any text.
pub open spec fn key_cmp(a: KeyV, b: KeyV) -> Ordering {
    match (a, b) {
        (KeyV::Num(x), KeyV::Num(y)) => if x < y {
            Ordering::Less
        } else if y < x {
            Ordering::Greater
        } else {
            Ordering::Equal
        },
        (KeyV::Text(x), KeyV::Text(y)) => seq_char_cmp(x, y),
        (KeyV::Num(_), KeyV::Text(_)) => Ordering::Less,
        (KeyV::Text(_), KeyV::Num(_)) => Ordering::Greater,
    }
}

pub open spec fn key_lt(a: KeyV, b: KeyV) -> bool {
    key_cmp(a, b) == Ordering::Less
}

pub open spec fn key_le(a: KeyV, b: KeyV) -> bool {
    key_cmp(a, b) != Ordering::Greater
}

proof fn lemma_seq_char_cmp_equal(a: Seq<char>, b: Seq<char>)
    ensures
        seq_char_cmp(a, b) == Ordering::Equal <==> a == b,
    decreases a.len(),
{
    if a.len() == 0 && b.len() == 0 {
        assert(a =~= b);
    } else if a.len() == 0 || b.len() == 0 {
        assert(a.len() != b.len());
    } else if (a[0] as u32) < (b[0] as u32) || (b[0] as u32) < (a[0] as u32) {
        if a == b {
            assert(a[0] == b[0]);
            assert(false);
        }
    } else {
        assert(a[0] == b[0]) by {
            vstd::utf8::char_u32_cast(a[0], a[0] as u32);
            vstd::utf8::char_u32_cast(b[0], b[0] as u32);
        }
        lemma_seq_char_cmp_equal(a.drop_first(), b.drop_first());
        if a.drop_first() == b.drop_first() {
            assert(a =~= b) by {
                assert(forall|k: int| #![auto]
                    1 <= k < a.len() ==> a[k] == a.drop_first()[k - 1] && b[k] == b.drop_first()[k
                        - 1]);
            }
        }
        if a == b {
            assert(a.drop_first() =~= b.drop_first());
        }
    }
}

proof fn lemma_seq_char_cmp_flip(a: Seq<char>, b: Seq<char>)
    ensures
        seq_char_cmp(a, b) == Ordering::Less <==> seq_char_cmp(b, a) == Ordering::Greater,
    decreases a.len(),
{
    if a.len() != 0 && b.len() != 0 && !((a[0] as u32) < (b[0] as u32)) && !((b[0] as u32) < (a[0]
        as u32)) {
        lemma_seq_char_cmp_flip(a.drop_first(), b.drop_first());
    }
}

proof fn lemma_seq_char_cmp_trans(a: Seq<char>, b: Seq<char>, c: Seq<char>)
    requires
        seq_char_cmp(a, b) == Ordering::Less,
        seq_char_cmp(b, c) == Ordering::Less,
    ensures
        seq_char_cmp(a, c) == Ordering::Less,
    decreases a.len(),
{
    if a.len() != 0 && b.len() != 0 && c.len() != 0 && !((a[0] as u32) < (b[0] as u32)) && !((b[0]
        as u32) < (c[0] as u32)) {
        lemma_seq_char_cmp_trans(a.drop_first(), b.drop_first(), c.drop_first());
    }
}

/// Comparing two keys yields `Equal` exactly when the keys carry the same
/// value.
pub proof fn lemma_key_cmp_equal(a: KeyV, b: KeyV)
    ensures
        key_cmp(a, b) == Ordering::Equal <==> a == b,
{
    match (a, b) {
        (KeyV::Text(x), KeyV::Text(y)) => lemma_seq_char_cmp_equal(x, y),
        _ => {},
    }
}

/// Swapping the arguments of a comparison swaps `Less` and `Greater`.
pub proof fn lemma_key_cmp_flip(a: KeyV, b: KeyV)
    ensures
        key_cmp(a, b) == Ordering::Less <==> key_cmp(b, a) == Ordering::Greater,
{
    match (a, b) {
        (KeyV::Text(x), KeyV::Text(y)) => lemma_seq_char_cmp_flip(x, y),
        _ => {},
    }
}

/// The strict order on keys is transitive.
pub proof fn lemma_key_lt_trans(a: KeyV, b: KeyV, c: KeyV)
    requires
        key_lt(a, b),
        key_lt(b, c),
    ensures
        key_lt(a, c),
{
    match (a, b, c) {
        (KeyV::Text(x), KeyV::Text(y), KeyV::Text(z)) => lemma_seq_char_cmp_trans(x, y, z),
        _ => {},
    }
}

/// The key order is total: of any two keys, one orders at or below the
/// other.
pub proof fn lemma_key_le_total(a: KeyV, b: KeyV)
    ensures
        key_le(a, b) || key_le(b, a),
        key_le(a, a),
        key_le(a, b) && key_le(b, a) ==> a == b,
{
    lemma_key_cmp_equal(a, b);
    lemma_key_cmp_flip(a, b);
    lemma_key_cmp_equal(a, a);
}

/// The non-strict key order is transitive.
pub proof fn lemma_key_le_trans(a: KeyV, b: KeyV, c: KeyV)
    requires
        key_le(a, b),
        key_le(b, c),
    ensures
        key_le(a, c),
{
    lemma_key_cmp_equal(a, b);
    lemma_key_cmp_equal(b, c);
    lemma_key_cmp_flip(a, b);
    lemma_key_cmp_flip(b, c);
    lemma_key_cmp_flip(a, c);
    if key_lt(a, b) && key_lt(b, c) {
        lemma_key_lt_trans(a, b, c);
    }
}

/// Any numeric key orders strictly below any textual key, whatever the
/// number and whatever the text.
pub proof fn lemma_numeric_below_textual(a: KeyV, b: KeyV)
    requires
        a is Num,
        b is Text,
    ensures
        key_lt(a, b),
{
}

proof fn lemma_seq_char_cmp_skip(a: Seq<char>, b: Seq<char>, i: int)
    requires
        0 <= i <= a.len(),
        i <= b.len(),
        forall|k: int| 0 <= k < i ==> a[k] == b[k],
    ensures
        seq_char_cmp(a, b) == seq_char_cmp(a.skip(i), b.skip(i)),
    decreases i,
{
    if i > 0 {
        assert(a[0] == b[0]);
        assert(forall|k: int|
            0 <= k < i - 1 ==> a.drop_first()[k] == a[k + 1] && b.drop_first()[k] == b[k + 1]);
        lemma_seq_char_cmp_skip(a.drop_first(), b.drop_first(), i - 1);
        assert(a.drop_first().skip(i - 1) =~= a.skip(i));
        assert(b.drop_first().skip(i - 1) =~= b.skip(i));
    } else {
        assert(a.skip(0) =~= a);
        assert(b.skip(0) =~= b);
    }
}

fn str_cmp(a: &str, b: &str) -> (r: Ordering)
    ensures
        r == seq_char_cmp(a@, b@),
{
    let la = a.unicode_len();
    let lb = b.unicode_len();
    let mut i: usize = 0;
    loop
        invariant
            la == a@.len(),
            lb == b@.len(),
            i <= la,
            i <= lb,
            forall|k: int| 0 <= k < i ==> a@[k] == b@[k],
        decreases la - i,
    {
        proof {
            lemma_seq_char_cmp_skip(a@, b@, i as int);
        }
        if i >= la || i >= lb {
            if la == lb {
                proof {
                    assert(a@.skip(i as int).len() == 0 && b@.skip(i as int).len() == 0);
                }
                return Ordering::Equal;
            } else if la < lb {
                proof {
                    assert(a@.skip(i as int).len() == 0 && b@.skip(i as int).len() != 0);
                }
                return Ordering::Less;
            } else {
                return Ordering::Greater;
            }
        }
        let ca = a.get_char(i);
        let cb = b.get_char(i);
        if (ca as u32) < (cb as u32) {
            proof {
                assert(a@.skip(i as int)[0] == ca && b@.skip(i as int)[0] == cb);
            }
            return Ordering::Less;
        } else if (cb as u32) < (ca as u32) {
            return Ordering::Greater;
        }
        proof {
            assert(ca == cb) by {
                vstd::utf8::char_u32_cast(ca, ca as u32);
                vstd::utf8::char_u32_cast(cb, cb as u32);
            }
        }
        i = i + 1;
    }
}

impl Key {
    /// Total comparison of two keys, as `key_cmp` states it: numbers by
    /// value, text lexicographically, and `Num` strictly below `Text`.
    pub fn cmp(&self, other: &Key) -> (r: Ordering)
        ensures
            r == key_cmp(self@, other@),
    {
        match (self, other) {
            (Key::Num(a), Key::Num(b)) => if a < b {
                Ordering::Less
            } else if b < a {
                Ordering::Greater
            } else {
                Ordering::Equal
            },
            (Key::Text(a), Key::Text(b)) => str_cmp(a.as_str(), b.as_str()),
            (Key::Num(_), Key::Text(_)) => Ordering::Less,
            (Key::Text(_), Key::Num(_)) => Ordering::Greater,
        }
    }

    pub fn partial_cmp(&self, other: &Key) -> (r: Option<Ordering>)
        ensures
            r == Some(key_cmp(self@, other@)),
    {
        Some(self.cmp(other))
    }
}

/// The base name of a path: the characters after the last `/`, or the
/// whole path when no `/` occurs in it.
pub open spec fn base_name(p: Seq<char>) -> Seq<char>
    decreases p.len(),
{
    if p.len() == 0 {
        Seq::empty()
    } else if p.last() == '/' {
        Seq::empty()
    } else {
        base_name(p.drop_last()).push(p.last())
    }
}

/// The path with any run of `/` at its end removed.
pub open spec fn strip_trailing_slashes(p: Seq<char>) -> Seq<char>
    decreases p.len(),
{
    if p.len() > 0 && p.last() == '/' {
        strip_trailing_slashes(p.drop_last())
    } else {
        p
    }
}

/// The name of the immediate containing directory of a path: the base
/// name is dropped, separators before it are dropped, and what remains of
/// the last segment is the directory's name. Empty when the path has no
/// parent segment.
pub open spec fn folder_name(p: Seq<char>) -> Seq<char> {
    base_name(strip_trailing_slashes(p.take(p.len() - base_name(p).len())))
}

proof fn lemma_base_name_suffix(p: Seq<char>, j: int)
    requires
        0 <= j < p.len(),
        p[j] == '/',
        forall|k: int| j < k < p.len() ==> p[k] != '/',
    ensures
        base_name(p) =~= p.skip(j + 1),
    decreases p.len(),
{
    if j == p.len() - 1 {
        assert(base_name(p) =~= p.skip(j + 1));
    } else {
        assert(p.last() != '/');
        assert(forall|k: int| j < k < p.len() - 1 ==> p.drop_last()[k] == p[k]);
        lemma_base_name_suffix(p.drop_last(), j);
        assert(base_name(p) =~= p.skip(j + 1));
    }
}

proof fn lemma_base_name_whole(p: Seq<char>)
    requires
        forall|k: int| 0 <= k < p.len() ==> p[k] != '/',
    ensures
        base_name(p) =~= p,
    decreases p.len(),
{
    if p.len() > 0 {
        assert(forall|k: int| 0 <= k < p.len() - 1 ==> p.drop_last()[k] == p[k]);
        lemma_base_name_whole(p.drop_last());
    }
}

proof fn lemma_strip_trailing(p: Seq<char>, e: int)
    requires
        0 <= e <= p.len(),
        forall|k: int| e <= k < p.len() ==> p[k] == '/',
        e > 0 ==> p[e - 1] != '/',
    ensures
        strip_trailing_slashes(p) =~= p.take(e),
    decreases p.len(),
{
    if p.len() > 0 && p.last() == '/' {
        assert(e < p.len());
        assert(forall|k: int| e <= k < p.len() - 1 ==> p.drop_last()[k] == p[k]);
        lemma_strip_trailing(p.drop_last(), e);
        assert(p.drop_last().take(e) =~= p.take(e));
    } else {
        assert(e == p.len());
        assert(p.take(e) =~= p);
    }
}

/// A decimal digit.
pub open spec fn is_digit(c: char) -> bool {
    ('0' as u32) <= (c as u32) && (c as u32) <= ('9' as u32)
}

pub open spec fn digit_val(c: char) -> int {
    (c as u32) - ('0' as u32)
}

fn is_digit_char(c: char) -> (r: bool)
    ensures
        r == is_digit(c),
{
    ('0' as u32) <= (c as u32) && (c as u32) <= ('9' as u32)
}

/// The value of the first maximal run of decimal digits in `s`, read left
/// to right; `cur` carries the digits read so far of the run being read,
/// and `started` says whether that run has begun. `0` when `s` holds no
/// digit at all.
pub open spec fn first_number_rec(s: Seq<char>, started: bool, cur: int) -> int
    decreases s.len(),
{
    if s.len() == 0 {
        cur
    } else if is_digit(s[0]) {
        first_number_rec(s.drop_first(), true, cur * 10 + digit_val(s[0]))
    } else if started {
        cur
    } else {
        first_number_rec(s.drop_first(), false, 0)
    }
}

pub open spec fn first_number_val(s: Seq<char>) -> int {
    first_number_rec(s, false, 0)
}

/// The value of the last maximal run of decimal digits in `s`; `in_run`,
/// `cur` and `last` carry the scan's state: whether a run is open, its
/// value so far, and the value of the last run already closed. `0` when
/// `s` holds no digit at all.
pub open spec fn last_number_rec(s: Seq<char>, in_run: bool, cur: int, last: int) -> int
    decreases s.len(),
{
    if s.len() == 0 {
        if in_run {
            cur
        } else {
            last
        }
    } else if is_digit(s[0]) {
        last_number_rec(
            s.drop_first(),
            true,
            (if in_run {
                cur
            } else {
                0
            }) * 10 + digit_val(s[0]),
            last,
        )
    } else {
        last_number_rec(
            s.drop_first(),
            false,
            0,
            if in_run {
                cur
            } else {
                last
            },
        )
    }
}

pub open spec fn last_number_val(s: Seq<char>) -> int {
    last_number_rec(s, false, 0, 0)
}

/// A digit-run value too large for `i32` is pinned to `i32::MAX`.
pub open spec fn clamp_i32(v: int) -> int {
    if v > i32::MAX as int {
        i32::MAX as int
    } else {
        v
    }
}

/// The named key-extraction strategies of the registry.
#[derive(Debug, Clone, Copy, PartialEq, Eq, Structural)]
pub enum Strategy {
    FirstNumber,
    LastNumber,
    Folder,
}

/// The key a strategy derives from a path's textual form.
pub open spec fn strat_key(strat: Strategy, p: Seq<char>) -> KeyV {
    match strat {
        Strategy::FirstNumber => KeyV::Num(clamp_i32(first_number_val(base_name(p)))),
        Strategy::LastNumber => KeyV::Num(clamp_i32(last_number_val(base_name(p)))),
        Strategy::Folder => if folder_name(p).len() == 0 {
            KeyV::Num(0)
        } else {
            KeyV::Text(folder_name(p))
        },
    }
}

/// The fixed registry: the strategy each name stands for.
pub open spec fn strategy_of_name(name: Seq<char>) -> Option<Strategy> {
    if name == "first_number"@ {
        Some(Strategy::FirstNumber)
    } else if name == "last_number"@ {
        Some(Strategy::LastNumber)
    } else if name == "folder"@ {
        Some(Strategy::Folder)
    } else {
        None
    }
}

/// Looks a strategy name up in the fixed registry.
pub fn lookup_strategy(name: &str) -> (r: Option<Strategy>)
    ensures
        r == strategy_of_name(name@),
{
    if crate::text::str_eq(name, "first_number") {
        Some(Strategy::FirstNumber)
    } else if crate::text::str_eq(name, "last_number") {
        Some(Strategy::LastNumber)
    } else if crate::text::str_eq(name, "folder") {
        Some(Strategy::Folder)
    } else {
        None
    }
}

pub(crate) fn base_name_str<'a>(p: &'a str) -> (r: &'a str)
    ensures
        r@ == base_name(p@),
{
    let len = p.unicode_len();
    match crate::text::last_index_of(p, '/') {
        Some(j) => {
            proof {
                lemma_base_name_suffix(p@, j as int);
            }
            let r = p.substring_char(j + 1, len);
            proof {
                assert(r@ =~= base_name(p@));
            }
            r
        },
        None => {
            proof {
                lemma_base_name_whole(p@);
            }
            p
        },
    }
}

fn first_number_of(base: &str) -> (v: i32)
    ensures
        v as int == clamp_i32(first_number_val(base@)),
{
    let len = base.unicode_len();
    let mut i: usize = 0;
    let mut acc: i32 = 0;
    let mut started: bool = false;
    let ghost mut cur: int = 0int;
    proof {
        assert(base@.skip(0) =~= base@);
    }
    while i < len
        invariant
            len == base@.len(),
            i <= len,
            0 <= cur,
            acc as int == clamp_i32(cur),
            !started ==> cur == 0,
            first_number_rec(base@.skip(i as int), started, cur) == first_number_val(base@),
        decreases len - i,
    {
        let c = base.get_char(i);
        proof {
            assert(base@.skip(i as int)[0] == base@[i as int]);
            assert(base@.skip(i as int).drop_first() =~= base@.skip(i as int + 1));
        }
        if is_digit_char(c) {
            let d: u32 = (c as u32) - ('0' as u32);
            let t: i64 = (acc as i64) * 10 + (d as i64);
            let newacc: i32 = if t > (i32::MAX as i64) {
                i32::MAX
            } else {
                t as i32
            };
            proof {
                if cur > i32::MAX as int {
                    assert(cur * 10 >= cur) by (nonlinear_arith)
                        requires
                            cur >= 0,
                    ;
                }
                cur = cur * 10 + digit_val(c);
            }
            acc = newacc;
            started = true;
        } else {
            if started {
                return acc;
            }
        }
        i = i + 1;
    }
    acc
}

fn last_number_of(base: &str) -> (v: i32)
    ensures
        v as int == clamp_i32(last_number_val(base@)),
{
    let len = base.unicode_len();
    let mut i: usize = 0;
    let mut acc: i32 = 0;
    let mut lastacc: i32 = 0;
    let mut in_run: bool = false;
    let ghost mut cur: int = 0int;
    let ghost mut lastv: int = 0int;
    proof {
        assert(base@.skip(0) =~= base@);
    }
    while i < len
        invariant
            len == base@.len(),
            i <= len,
            0 <= cur,
            0 <= lastv,
            acc as int == clamp_i32(cur),
            lastacc as int == clamp_i32(lastv),
            !in_run ==> cur == 0 && acc == 0,
            last_number_rec(base@.skip(i as int), in_run, cur, lastv) == last_number_val(base@),
        decreases len - i,
    {
        let c = base.get_char(i);
        proof {
            assert(base@.skip(i as int)[0] == base@[i as int]);
            assert(base@.skip(i as int).drop_first() =~= base@.skip(i as int + 1));
        }
        if is_digit_char(c) {
            let d: u32 = (c as u32) - ('0' as u32);
            let t: i64 = (acc as i64) * 10 + (d as i64);
            let newacc: i32 = if t > (i32::MAX as i64) {
                i32::MAX
            } else {
                t as i32
            };
            proof {
                if cur > i32::MAX as int {
                    assert(cur * 10 >= cur) by (nonlinear_arith)
                        requires
                            cur >= 0,
                    ;
                }
                cur = cur * 10 + digit_val(c);
            }
            acc = newacc;
            in_run = true;
        } else {
            if in_run {
                lastacc = acc;
                proof {
                    lastv = cur;
                    cur = 0int;
                }
                acc = 0;
                in_run = false;
            }
        }
        i = i + 1;
    }
    if in_run {
        acc
    } else {
        lastacc
    }
}

fn folder_key(path: &str) -> (k: Key)
    ensures
        k@ == strat_key(Strategy::Folder, path@),
{
    match crate::text::last_index_of(path, '/') {
        None => {
            proof {
                lemma_base_name_whole(path@);
                assert(path@.take(0) =~= Seq::<char>::empty());
            }
            Key::Num(0)
        },
        Some(j) => {
            let len = path.unicode_len();
            proof {
                lemma_base_name_suffix(path@, j as int);
                assert(path@.take(path@.len() - base_name(path@).len()) =~= path@.take(
                    j as int + 1,
                ));
            }
            let mut e: usize = j + 1;
            while e > 0 && path.get_char(e - 1) == '/'
                invariant
                    e <= j + 1,
                    (j as int) < path@.len(),
                    forall|k: int| e <= k <= j ==> path@[k] == '/',
                decreases e,
            {
                e = e - 1;
            }
            proof {
                let dir = path@.take(j as int + 1);
                assert(forall|k: int| e <= k < dir.len() ==> dir[k] == '/');
                if e > 0 {
                    assert(dir[e - 1] == path@[e - 1]);
                }
                lemma_strip_trailing(dir, e as int);
                assert(dir.take(e as int) =~= path@.take(e as int));
            }
            if e == 0 {
                proof {
                    assert(path@.take(0) =~= Seq::<char>::empty());
                    assert(folder_name(path@).len() == 0);
                }
                Key::Num(0)
            } else {
                let t = path.substring_char(0, e);
                proof {
                    assert(t@ =~= path@.take(e as int));
                    assert(t@[e - 1] != '/');
                }
                match crate::text::last_index_of(t, '/') {
                    None => {
                        proof {
                            lemma_base_name_whole(t@);
                            assert(folder_name(path@) == t@);
                        }
                        Key::Text(String::from_str(t))
                    },
                    Some(j2) => {
                        proof {
                            lemma_base_name_suffix(t@, j2 as int);
                        }
                        let f = t.substring_char(j2 + 1, e);
                        proof {
                            assert(f@ =~= t@.skip(j2 as int + 1));
                            assert(folder_name(path@) == f@);
                            assert(f@.len() > 0);
                        }
                        Key::Text(String::from_str(f))
                    },
                }
            }
        },
    }
}

/// Derives the sort key a strategy assigns to a path.
pub fn apply_strategy(strat: Strategy, path: &str) -> (k: Key)
    ensures
        k@ == strat_key(strat, path@),
{
    match strat {
        Strategy::FirstNumber => {
            let b = base_name_str(path);
            Key::Num(first_number_of(b))
        },
        Strategy::LastNumber => {
            let b = base_name_str(path);
            Key::Num(last_number_of(b))
        },
        Strategy::Folder => folder_key(path),
    }
}

/// Where a stable insertion places a path among already-sorted paths: after
/// every path whose key is at or below its own, so that equal keys keep
/// their earlier relative order.
pub open spec fn insert_sorted(t: Seq<String>, x: String, strat: Strategy) -> Seq<String>
    decreases t.len(),
{
    if t.len() == 0 {
        seq![x]
    } else if key_lt(strat_key(strat, x@), strat_key(strat, t.last()@)) {
        insert_sorted(t.drop_last(), x, strat).push(t.last())
    } else {
        t.push(x)
    }
}

/// The stable sort of a sequence of paths by one strategy's key.
pub open spec fn sort_by_strategy(s: Seq<String>, strat: Strategy) -> Seq<String>
    decreases s.len(),
{
    if s.len() == 0 {
        Seq::empty()
    } else {
        insert_sorted(sort_by_strategy(s.drop_last(), strat), s.last(), strat)
    }
}

/// Repeated stable sorting by a list of strategies of decreasing priority:
/// the last-listed strategy is applied first and the first-listed one
/// last, so the first-listed key dominates the final order.
pub open spec fn sort_by_strategies(s: Seq<String>, strats: Seq<Strategy>) -> Seq<String>
    decreases strats.len(),
{
    if strats.len() == 0 {
        s
    } else {
        sort_by_strategy(sort_by_strategies(s, strats.drop_first()), strats.first())
    }
}

/// The strategy each name resolves to; names outside the registry fall
/// back arbitrarily and are only spoken of under `all_known`.
pub open spec fn resolved_strategy(name: Seq<char>) -> Strategy {
    match strategy_of_name(name) {
        Some(st) => st,
        None => Strategy::Folder,
    }
}

pub open spec fn strategies_of_names(names: Seq<String>) -> Seq<Strategy>
    decreases names.len(),
{
    if names.len() == 0 {
        Seq::empty()
    } else {
        strategies_of_names(names.drop_last()).push(resolved_strategy(names.last()@))
    }
}

pub open spec fn all_known(names: Seq<String>) -> bool {
    forall|i: int| 0 <= i < names.len() ==> strategy_of_name(names[i]@) is Some
}

/// The error reported when a sort is asked for under a name that the
/// registry does not hold.
#[derive(Debug, Clone, PartialEq, Eq)]
pub struct UnknownStrategyError {
    pub name: String,
}

fn less_than_last(out: &Vec<String>, kx: &Key, strat: Strategy) -> (r: bool)
    requires
        out@.len() > 0,
    ensures
        r == key_lt(kx@, strat_key(strat, out@.last()@)),
{
    let kl = apply_strategy(strat, out[out.len() - 1].as_str());
    match kx.cmp(&kl) {
        Ordering::Less => true,
        _ => false,
    }
}

fn insert_by_strategy(out: &mut Vec<String>, x: String, strat: Strategy)
    ensures
        final(out)@ == insert_sorted(old(out)@, x, strat),
{
    let ghost orig: Seq<String> = old(out)@;
    let kx = apply_strategy(strat, x.as_str());
    let mut tail: Vec<String> = Vec::new();
    proof {
        assert(tail@.reverse() =~= Seq::<String>::empty());
        assert(insert_sorted(out@, x, strat) + tail@.reverse() =~= insert_sorted(
            orig,
            x,
            strat,
        ));
    }
    while out.len() > 0 && less_than_last(out, &kx, strat)
        invariant
            kx@ == strat_key(strat, x@),
            insert_sorted(orig, x, strat) == insert_sorted(out@, x, strat) + tail@.reverse(),
        decreases out.len(),
    {
        let ghost out0 = out@;
        let ghost tail0 = tail@;
        let l = out.pop().unwrap();
        tail.push(l);
        proof {
            assert(out@ =~= out0.drop_last());
            assert(l == out0.last());
            assert(insert_sorted(out0, x, strat) == insert_sorted(out@, x, strat).push(l));
            assert(tail@.reverse() =~= seq![l] + tail0.reverse());
            assert(insert_sorted(out@, x, strat).push(l) + tail0.reverse() =~= insert_sorted(
                out@,
                x,
                strat,
            ) + tail@.reverse());
        }
    }
    proof {
        assert(insert_sorted(out@, x, strat) == out@.push(x));
    }
    out.push(x);
    while tail.len() > 0
        invariant
            insert_sorted(orig, x, strat) == out@ + tail@.reverse(),
        decreases tail.len(),
    {
        let ghost out0 = out@;
        let ghost tail0 = tail@;
        let l = tail.pop().unwrap();
        out.push(l);
        proof {
            assert(tail0.reverse() =~= seq![l] + tail@.reverse());
            assert(out@ + tail@.reverse() =~= out0 + tail0.reverse());
        }
    }
    proof {
        assert(out@ + tail@.reverse() =~= out@);
    }
}

fn sort_pass(files: &mut Vec<String>, strat: Strategy)
    ensures
        final(files)@ == sort_by_strategy(old(files)@, strat),
{
    let ghost orig: Seq<String> = old(files)@;
    let mut out: Vec<String> = Vec::new();
    let mut i: usize = 0;
    proof {
        assert(orig.take(0) =~= Seq::<String>::empty());
    }
    while i < files.len()
        invariant
            files@ == orig,
            i <= orig.len(),
            out@ == sort_by_strategy(orig.take(i as int), strat),
        decreases orig.len() - i,
    {
        let x = files[i].clone();
        insert_by_strategy(&mut out, x, strat);
        proof {
            assert(orig.take(i as int + 1).drop_last() =~= orig.take(i as int));
            assert(orig.take(i as int + 1).last() == orig[i as int]);
        }
        i = i + 1;
    }
    proof {
        assert(orig.take(orig.len() as int) =~= orig);
    }
    *files = out;
}

fn clone_paths(paths: &Vec<String>) -> (r: Vec<String>)
    ensures
        r@ == paths@,
{
    let mut r: Vec<String> = Vec::new();
    let mut i: usize = 0;
    while i < paths.len()
        invariant
            i <= paths@.len(),
            r@ =~= paths@.take(i as int),
        decreases paths@.len() - i,
    {
        r.push(paths[i].clone());
        proof {
            assert(r@ =~= paths@.take(i as int + 1));
        }
        i = i + 1;
    }
    proof {
        assert(paths@.take(paths@.len() as int) =~= paths@);
    }
    r
}

/// Orders the given paths by the named strategies, the first name being
/// the primary key: the lowest-priority strategy sorts first, and each
/// higher-priority strategy then stable-sorts the result. The whole sort
/// fails at the first name outside the registry, and in that case no
/// reordered collection is produced at all.
pub fn sort_files(paths: &Vec<String>, strategy_names: &Vec<String>) -> (r: Result<
    Vec<String>,
    UnknownStrategyError,
>)
    ensures
        r is Ok <==> all_known(strategy_names@),
        (r matches Ok(sorted) ==> sorted@ == sort_by_strategies(
            paths@,
            strategies_of_names(strategy_names@),
        )),
        (r matches Err(e) ==> exists|i: int|
            0 <= i < strategy_names@.len() && strategy_of_name(strategy_names@[i]@) is None && (
            forall|k: int| 0 <= k < i ==> strategy_of_name(strategy_names@[k]@) is Some)
                && e.name@ == strategy_names@[i]@),
{
    let mut strats: Vec<Strategy> = Vec::new();
    let mut i: usize = 0;
    proof {
        assert(strategy_names@.take(0) =~= Seq::<String>::empty());
    }
    while i < strategy_names.len()
        invariant
            i <= strategy_names@.len(),
            strats@ == strategies_of_names(strategy_names@.take(i as int)),
            forall|k: int| 0 <= k < i ==> strategy_of_name(strategy_names@[k]@) is Some,
        decreases strategy_names@.len() - i,
    {
        match lookup_strategy(strategy_names[i].as_str()) {
            Some(st) => {
                strats.push(st);
                proof {
                    assert(strategy_names@.take(i as int + 1).drop_last() =~= strategy_names@.take(
                        i as int,
                    ));
                    assert(strategy_names@.take(i as int + 1).last() == strategy_names@[i as int]);
                }
            },
            None => {
                let e = UnknownStrategyError { name: strategy_names[i].clone() };
                proof {
                    assert(strategy_of_name(strategy_names@[i as int]@) is None);
                    assert(e.name@ == strategy_names@[i as int]@);
                }
                return Err(e);
            },
        }
        i = i + 1;
    }
    proof {
        assert(strategy_names@.take(strategy_names@.len() as int) =~= strategy_names@);
    }
    let mut files = clone_paths(paths);
    let ghost all: Seq<Strategy> = strats@;
    let mut si: usize = strats.len();
    proof {
        assert(all.skip(si as int) =~= Seq::<Strategy>::empty());
    }
    while si > 0
        invariant
            si <= all.len(),
            strats@ == all,
            files@ == sort_by_strategies(paths@, all.skip(si as int)),
        decreases si,
    {
        si = si - 1;
        let st = strats[si];
        sort_pass(&mut files, st);
        proof {
            assert(all.skip(si as int).drop_first() =~= all.skip(si as int + 1));
            assert(all.skip(si as int).first() == all[si as int]);
        }
    }
    proof {
        assert(all.skip(0) =~= all);
    }
    Ok(files)
}

/// The paths whose key under `strat` is at or below the key of every path
/// after them: the order a sort must produce.
pub open spec fn sorted_by(s: Seq<String>, strat: Strategy) -> bool {
    forall|i: int, j: int|
        #![trigger s[i], s[j]]
        0 <= i < j < s.len() ==> key_le(strat_key(strat, s[i]@), strat_key(strat, s[j]@))
}

/// The paths a strategy keys with `k`.
pub open spec fn keyed(strat: Strategy, k: KeyV) -> spec_fn(String) -> bool {
    |p: String| strat_key(strat, p@) == k
}

/// The paths of `s` that a strategy keys with `k`, in their order in `s`.
pub open spec fn with_key(s: Seq<String>, strat: Strategy, k: KeyV) -> Seq<String> {
    s.filter(keyed(strat, k))
}

/// Whether all paths that `pred` picks carry one key under `strat`: a
/// group whose members a sort by `strat` may never part or reorder.
pub open spec fn ties_under(strat: Strategy, pred: spec_fn(String) -> bool) -> bool {
    forall|p: String, q: String|
        #[trigger] pred(p) && #[trigger] pred(q) ==> strat_key(strat, p@) == strat_key(strat, q@)
}

proof fn lemma_insert_sorted_multiset(t: Seq<String>, x: String, strat: Strategy)
    ensures
        insert_sorted(t, x, strat).to_multiset() == t.to_multiset().insert(x),
    decreases t.len(),
{
    broadcast use vstd::seq_lib::group_to_multiset_ensures;

    if t.len() == 0 {
        assert(seq![x] =~= Seq::<String>::empty().push(x));
    } else if key_lt(strat_key(strat, x@), strat_key(strat, t.last()@)) {
        lemma_insert_sorted_multiset(t.drop_last(), x, strat);
        assert(t =~= t.drop_last().push(t.last()));
        assert(t.drop_last().to_multiset().insert(x).insert(t.last()) =~= t.drop_last()
            .to_multiset().insert(t.last()).insert(x));
    } else {
    }
}

/// A stable sort by one strategy is a permutation: the same paths come
/// out, each as often as it went in.
pub proof fn lemma_sort_by_strategy_permutation(s: Seq<String>, strat: Strategy)
    ensures
        sort_by_strategy(s, strat).to_multiset() == s.to_multiset(),
    decreases s.len(),
{
    broadcast use vstd::seq_lib::group_to_multiset_ensures;

    if s.len() > 0 {
        lemma_sort_by_strategy_permutation(s.drop_last(), strat);
        lemma_insert_sorted_multiset(sort_by_strategy(s.drop_last(), strat), s.last(), strat);
        assert(s =~= s.drop_last().push(s.last()));
    }
}

proof fn lemma_insert_sorted_sorted(t: Seq<String>, x: String, strat: Strategy)
    requires
        sorted_by(t, strat),
    ensures
        sorted_by(insert_sorted(t, x, strat), strat),
        insert_sorted(t, x, strat).len() == t.len() + 1,
    decreases t.len(),
{
    broadcast use vstd::seq_lib::group_to_multiset_ensures;

    let kx = strat_key(strat, x@);
    let r = insert_sorted(t, x, strat);
    if t.len() == 0 {
    } else {
        let klast = strat_key(strat, t.last()@);
        if key_lt(kx, klast) {
            assert(forall|k: int| 0 <= k < t.len() - 1 ==> t.drop_last()[k] == t[k]);
            lemma_insert_sorted_sorted(t.drop_last(), x, strat);
            lemma_insert_sorted_multiset(t.drop_last(), x, strat);
            let inner = insert_sorted(t.drop_last(), x, strat);
            assert(forall|m: int|
                0 <= m < inner.len() ==> key_le(
                    strat_key(strat, #[trigger] inner[m]@),
                    klast,
                )) by {
                assert forall|m: int| 0 <= m < inner.len() implies key_le(
                    strat_key(strat, #[trigger] inner[m]@),
                    klast,
                ) by {
                    assert(inner.contains(inner[m]));
                    if inner[m] == x {
                        assert(key_le(kx, klast));
                    } else {
                        assert(inner.to_multiset().count(inner[m]) > 0);
                        assert(t.drop_last().to_multiset().count(inner[m]) > 0);
                        assert(t.drop_last().contains(inner[m]));
                        let kk = choose|kk: int|
                            0 <= kk < t.drop_last().len() && t.drop_last()[kk] == inner[m];
                        assert(t[kk] == inner[m]);
                        if kk < t.len() - 1 {
                            assert(key_le(strat_key(strat, t[kk]@), klast));
                        } else {
                            lemma_key_le_total(strat_key(strat, t[kk]@), klast);
                        }
                    }
                }
            }
            assert(forall|m: int| 0 <= m < inner.len() ==> r[m] == inner[m]);
            assert(r.last() == t.last());
        } else {
            lemma_key_cmp_flip(kx, klast);
            lemma_key_cmp_equal(kx, klast);
            assert(key_le(klast, kx));
            assert(forall|m: int|
                0 <= m < t.len() ==> key_le(strat_key(strat, #[trigger] t[m]@), kx)) by {
                assert forall|m: int| 0 <= m < t.len() implies key_le(
                    strat_key(strat, #[trigger] t[m]@),
                    kx,
                ) by {
                    if m < t.len() - 1 {
                        assert(key_le(strat_key(strat, t[m]@), klast));
                        lemma_key_le_trans(strat_key(strat, t[m]@), klast, kx);
                    }
                }
            }
        }
    }
}

/// A stable sort by one strategy leaves that strategy's keys in order.
pub proof fn lemma_sort_by_strategy_sorted(s: Seq<String>, strat: Strategy)
    ensures
        sorted_by(sort_by_strategy(s, strat), strat),
    decreases s.len(),
{
    if s.len() > 0 {
        lemma_sort_by_strategy_sorted(s.drop_last(), strat);
        lemma_insert_sorted_sorted(sort_by_strategy(s.drop_last(), strat), s.last(), strat);
    }
}

proof fn lemma_insert_sorted_filter(
    t: Seq<String>,
    x: String,
    strat: Strategy,
    pred: spec_fn(String) -> bool,
)
    requires
        ties_under(strat, pred),
    ensures
        insert_sorted(t, x, strat).filter(pred) == if pred(x) {
            t.filter(pred).push(x)
        } else {
            t.filter(pred)
        },
    decreases t.len(),
{
    reveal(Seq::filter);
    let kx = strat_key(strat, x@);
    if t.len() == 0 {
        let r = insert_sorted(t, x, strat);
        assert(r == seq![x]);
        assert(r.drop_last() =~= t);
        assert(r.last() == x);
        assert(r.filter(pred) == if pred(x) {
            t.filter(pred).push(x)
        } else {
            t.filter(pred)
        });
    } else {
        let klast = strat_key(strat, t.last()@);
        if key_lt(kx, klast) {
            if pred(x) && pred(t.last()) {
                assert(kx == klast);
                lemma_key_cmp_equal(kx, klast);
                assert(false);
            }
            lemma_insert_sorted_filter(t.drop_last(), x, strat, pred);
            let inner = insert_sorted(t.drop_last(), x, strat);
            let r = insert_sorted(t, x, strat);
            assert(r == inner.push(t.last()));
            assert(r.len() > 0 && r.drop_last() =~= inner && r.last() == t.last());
            assert(r.filter(pred) == if pred(t.last()) {
                inner.filter(pred).push(t.last())
            } else {
                inner.filter(pred)
            });
            assert(t.filter(pred) == if pred(t.last()) {
                t.drop_last().filter(pred).push(t.last())
            } else {
                t.drop_last().filter(pred)
            });
        } else {
            let r = insert_sorted(t, x, strat);
            assert(r == t.push(x));
            assert(r.drop_last() =~= t && r.last() == x);
            assert(r.filter(pred) == if pred(x) {
                t.filter(pred).push(x)
            } else {
                t.filter(pred)
            });
        }
    }
}

/// Stability of one pass, in its general form: a group of paths that all
/// carry one key under the sorting strategy comes out of the sort in
/// exactly the order it went in.
pub proof fn lemma_sort_preserves_tied_group(
    s: Seq<String>,
    strat: Strategy,
    pred: spec_fn(String) -> bool,
)
    requires
        ties_under(strat, pred),
    ensures
        sort_by_strategy(s, strat).filter(pred) == s.filter(pred),
    decreases s.len(),
{
    reveal(Seq::filter);
    if s.len() > 0 {
        lemma_sort_preserves_tied_group(s.drop_last(), strat, pred);
        lemma_insert_sorted_filter(sort_by_strategy(s.drop_last(), strat), s.last(), strat, pred);
    }
}

/// Stability: for every key value, the paths that a strategy keys alike
/// come out of its sort in exactly the order they went in.
pub proof fn lemma_sort_by_strategy_stable(s: Seq<String>, strat: Strategy, k: KeyV)
    ensures
        with_key(sort_by_strategy(s, strat), strat, k) == with_key(s, strat, k),
{
    assert(ties_under(strat, keyed(strat, k))) by {
        assert(forall|p: String| #[trigger] keyed(strat, k)(p) ==> strat_key(strat, p@) == k);
    }
    lemma_sort_preserves_tied_group(s, strat, keyed(strat, k));
}

/// Stability of the whole multi-key sort: a group of paths that every
/// listed strategy keys alike comes out of the chained sort in exactly
/// the order it went in.
pub proof fn lemma_sort_by_strategies_stable(
    s: Seq<String>,
    strats: Seq<Strategy>,
    pred: spec_fn(String) -> bool,
)
    requires
        forall|i: int| 0 <= i < strats.len() ==> ties_under(#[trigger] strats[i], pred),
    ensures
        sort_by_strategies(s, strats).filter(pred) == s.filter(pred),
    decreases strats.len(),
{
    if strats.len() > 0 {
        assert(forall|i: int|
            0 <= i < strats.drop_first().len() ==> ties_under(
                #[trigger] strats.drop_first()[i],
                pred,
            ));
        lemma_sort_by_strategies_stable(s, strats.drop_first(), pred);
        assert(ties_under(strats[0], pred));
        lemma_sort_preserves_tied_group(
            sort_by_strategies(s, strats.drop_first()),
            strats.first(),
            pred,
        );
    }
}

/// Sorting by a whole strategy list is a permutation of the input paths.
pub proof fn lemma_sort_by_strategies_permutation(s: Seq<String>, strats: Seq<Strategy>)
    ensures
        sort_by_strategies(s, strats).to_multiset() == s.to_multiset(),
    decreases strats.len(),
{
    if strats.len() > 0 {
        lemma_sort_by_strategies_permutation(s, strats.drop_first());
        lemma_sort_by_strategy_permutation(sort_by_strategies(s, strats.drop_first()), strats.first());
    }
}

/// After sorting by a strategy list, the first-listed strategy — the
/// primary key — is in order over the whole result.
pub proof fn lemma_sort_by_strategies_sorted(s: Seq<String>, strats: Seq<Strategy>)
    requires
        strats.len() > 0,
    ensures
        sorted_by(sort_by_strategies(s, strats), strats.first()),
{
    lemma_sort_by_strategy_sorted(sort_by_strategies(s, strats.drop_first()), strats.first());
}

/// An empty strategy list is the identity sort: the input order is kept.
pub proof fn lemma_empty_strategy_list_identity(s: Seq<String>)
    ensures
        sort_by_strategies(s, Seq::<Strategy>::empty()) == s,
{
}

proof fn lemma_with_key_source_one(t: Seq<String>, strat: Strategy, k: KeyV, ii: int)
    requires
        0 <= ii < with_key(t, strat, k).len(),
    ensures
        exists|i: int| 0 <= i < t.len() && t[i] == with_key(t, strat, k)[ii],
    decreases t.len(),
{
    reveal(Seq::filter);
    let f = with_key(t, strat, k);
    if t.len() > 0 {
        let fd = with_key(t.drop_last(), strat, k);
        if strat_key(strat, t.last()@) == k && ii == fd.len() {
            assert(t[t.len() - 1] == f[ii]);
        } else {
            lemma_with_key_source_one(t.drop_last(), strat, k, ii);
            let i = choose|i: int| 0 <= i < t.drop_last().len() && t.drop_last()[i] == fd[ii];
            assert(t[i] == f[ii]);
        }
    }
}

proof fn lemma_with_key_source(t: Seq<String>, strat: Strategy, k: KeyV, ii: int, jj: int)
    requires
        0 <= ii < jj < with_key(t, strat, k).len(),
    ensures
        exists|i: int, j: int|
            0 <= i < j < t.len() && t[i] == with_key(t, strat, k)[ii] && t[j] == with_key(
                t,
                strat,
                k,
            )[jj],
    decreases t.len(),
{
    reveal(Seq::filter);
    let f = with_key(t, strat, k);
    if t.len() > 0 {
        let fd = with_key(t.drop_last(), strat, k);
        if strat_key(strat, t.last()@) == k && jj == fd.len() {
            lemma_with_key_source_one(t.drop_last(), strat, k, ii);
            let i = choose|i: int| 0 <= i < t.drop_last().len() && t.drop_last()[i] == fd[ii];
            assert(t[i] == f[ii] && t[t.len() - 1] == f[jj]);
        } else {
            lemma_with_key_source(t.drop_last(), strat, k, ii, jj);
            let (i, j) = choose|i: int, j: int|
                0 <= i < j < t.drop_last().len() && t.drop_last()[i] == fd[ii] && t.drop_last()[j]
                    == fd[jj];
            assert(t[i] == f[ii] && t[j] == f[jj]);
        }
    }
}

proof fn lemma_with_key_member(t: Seq<String>, strat: Strategy, k: KeyV, i: int)
    requires
        0 <= i < t.len(),
        strat_key(strat, t[i]@) == k,
    ensures
        exists|ii: int| 0 <= ii < with_key(t, strat, k).len() && with_key(t, strat, k)[ii] == t[i],
    decreases t.len(),
{
    reveal(Seq::filter);
    let f = with_key(t, strat, k);
    if i == t.len() - 1 {
        assert(f[f.len() - 1] == t[i]);
    } else {
        lemma_with_key_member(t.drop_last(), strat, k, i);
        let fd = with_key(t.drop_last(), strat, k);
        let ii = choose|ii: int| 0 <= ii < fd.len() && fd[ii] == t.drop_last()[i];
        assert(f[ii] == t[i]);
    }
}

proof fn lemma_with_key_order(t: Seq<String>, strat: Strategy, k: KeyV, i: int, j: int)
    requires
        0 <= i < j < t.len(),
        strat_key(strat, t[i]@) == k,
        strat_key(strat, t[j]@) == k,
    ensures
        exists|ii: int, jj: int|
            0 <= ii < jj < with_key(t, strat, k).len() && with_key(t, strat, k)[ii] == t[i]
                && with_key(t, strat, k)[jj] == t[j],
    decreases t.len(),
{
    reveal(Seq::filter);
    let f = with_key(t, strat, k);
    let fd = with_key(t.drop_last(), strat, k);
    if j == t.len() - 1 {
        lemma_with_key_member(t.drop_last(), strat, k, i);
        let ii = choose|ii: int| 0 <= ii < fd.len() && fd[ii] == t.drop_last()[i];
        assert(f[ii] == t[i] && f[fd.len() as int] == t[j]);
    } else {
        lemma_with_key_order(t.drop_last(), strat, k, i, j);
        let (ii, jj) = choose|ii: int, jj: int|
            0 <= ii < jj < fd.len() && fd[ii] == t.drop_last()[i] && fd[jj] == t.drop_last()[j];
        assert(f[ii] == t[i] && f[jj] == t[j]);
    }
}

/// Two chained stable sorts order the paths lexicographically: first by
/// the primary strategy's key, and, where those keys tie, by the secondary
/// strategy's key. The secondary sort runs first, as
/// `sort_by_strategies` composes them.
pub proof fn lemma_two_key_sort_lexicographic(
    s: Seq<String>,
    primary: Strategy,
    secondary: Strategy,
)
    ensures
        ({
            let r = sort_by_strategy(sort_by_strategy(s, secondary), primary);
            forall|i: int, j: int|
                #![trigger r[i], r[j]]
                0 <= i < j < r.len() ==> (key_lt(
                    strat_key(primary, r[i]@),
                    strat_key(primary, r[j]@),
                ) || (strat_key(primary, r[i]@) == strat_key(primary, r[j]@) && key_le(
                    strat_key(secondary, r[i]@),
                    strat_key(secondary, r[j]@),
                )))
        }),
{
    let t = sort_by_strategy(s, secondary);
    let r = sort_by_strategy(t, primary);
    lemma_sort_by_strategy_sorted(s, secondary);
    lemma_sort_by_strategy_sorted(t, primary);
    assert forall|i: int, j: int|
        #![trigger r[i], r[j]]
        0 <= i < j < r.len() implies (key_lt(strat_key(primary, r[i]@), strat_key(primary, r[j]@))
        || (strat_key(primary, r[i]@) == strat_key(primary, r[j]@) && key_le(
        strat_key(secondary, r[i]@),
        strat_key(secondary, r[j]@),
    ))) by {
        let k1i = strat_key(primary, r[i]@);
        let k1j = strat_key(primary, r[j]@);
        assert(key_le(k1i, k1j));
        lemma_key_cmp_equal(k1i, k1j);
        if !key_lt(k1i, k1j) {
            assert(k1i == k1j);
            let k = k1i;
            lemma_sort_by_strategy_stable(t, primary, k);
            lemma_with_key_order(r, primary, k, i, j);
            let (ii, jj) = choose|ii: int, jj: int|
                0 <= ii < jj < with_key(r, primary, k).len() && with_key(r, primary, k)[ii] == r[i]
                    && with_key(r, primary, k)[jj] == r[j];
            lemma_with_key_source(t, primary, k, ii, jj);
            let (a, b) = choose|a: int, b: int|
                0 <= a < b < t.len() && t[a] == with_key(t, primary, k)[ii] && t[b] == with_key(
                    t,
                    primary,
                    k,
                )[jj];
            assert(t[a] == r[i] && t[b] == r[j]);
            assert(key_le(strat_key(secondary, t[a]@), strat_key(secondary, t[b]@)));
        }
    }
}

} // verus!
