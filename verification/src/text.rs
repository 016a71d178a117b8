//! Whitespace classification and trimming of text, used when a note body is
//! validated: a body that is empty or consists of whitespace alone is
//! rejected, and a stored body is always kept in trimmed form.

use vstd::prelude::*;

verus! {

/// Whether `c` has the Unicode `White_Space` property, the class that
/// `str::trim` removes at either end of a string.
pub open spec fn is_ws_char(c: char) -> bool {
    let u = c as u32;
    u == 0x09 || u == 0x0A || u == 0x0B || u == 0x0C || u == 0x0D || u == 0x20 || u == 0x85
        || u == 0xA0 || u == 0x1680 || (0x2000 <= u && u <= 0x200A) || u == 0x2028 || u == 0x2029
        || u == 0x202F || u == 0x205F || u == 0x3000
}

/// A sequence is blank when every character in it is whitespace; the empty
/// sequence is blank.
pub open spec fn is_blank(s: Seq<char>) -> bool {
    forall|i: int| 0 <= i < s.len() ==> is_ws_char(#[trigger] s[i])
}

/// What remains of `s` after the leading whitespace is dropped.
pub open spec fn trim_front(s: Seq<char>) -> Seq<char>
    decreases s.len(),
{
    if s.len() == 0 {
        s
    } else if is_ws_char(s[0]) {
        trim_front(s.skip(1))
    } else {
        s
    }
}

/// What remains of `s` after the trailing whitespace is dropped.
pub open spec fn trim_back(s: Seq<char>) -> Seq<char>
    decreases s.len(),
{
    if s.len() == 0 {
        s
    } else if is_ws_char(s[s.len() - 1]) {
        trim_back(s.take(s.len() - 1))
    } else {
        s
    }
}

/// `s` with whitespace dropped from both ends, as `str::trim` leaves it.
pub open spec fn trim_spec(s: Seq<char>) -> Seq<char> {
    trim_back(trim_front(s))
}

pub fn is_ws(c: char) -> (b: bool)
    ensures
        b == is_ws_char(c),
{
    let u = c as u32;
    u == 0x09 || u == 0x0A || u == 0x0B || u == 0x0C || u == 0x0D || u == 0x20 || u == 0x85
        || u == 0xA0 || u == 0x1680 || (0x2000 <= u && u <= 0x200A) || u == 0x2028 || u == 0x2029
        || u == 0x202F || u == 0x205F || u == 0x3000
}

proof fn lemma_trim_front_skip(s: Seq<char>, a: int)
    requires
        0 <= a <= s.len(),
        forall|k: int| 0 <= k < a ==> is_ws_char(#[trigger] s[k]),
        a == s.len() || !is_ws_char(s[a]),
    ensures
        trim_front(s) == s.skip(a),
    decreases a,
{
    if a == 0 {
        assert(s.skip(0) =~= s);
    } else {
        assert(is_ws_char(s[0]));
        lemma_trim_front_skip(s.skip(1), a - 1);
        assert(s.skip(1).skip(a - 1) =~= s.skip(a));
    }
}

proof fn lemma_trim_back_take(s: Seq<char>, b: int)
    requires
        0 <= b <= s.len(),
        forall|k: int| b <= k < s.len() ==> is_ws_char(#[trigger] s[k]),
        b == 0 || !is_ws_char(s[b - 1]),
    ensures
        trim_back(s) == s.take(b),
    decreases s.len() - b,
{
    if b == s.len() {
        if s.len() == 0 {
            assert(s.take(0) =~= s);
        } else if is_ws_char(s[s.len() - 1]) {
            lemma_trim_back_take(s.take(s.len() - 1), b - 1);
            assert(s.take(s.len() - 1).take(b - 1) =~= s.take(b - 1));
        } else {
            assert(s.take(b) =~= s);
        }
    } else {
        assert(is_ws_char(s[s.len() - 1]));
        lemma_trim_back_take(s.take(s.len() - 1), b);
        assert(s.take(s.len() - 1).take(b) =~= s.take(b));
    }
}

proof fn lemma_trim_front_keeps_nonws(s: Seq<char>, k: int)
    requires
        0 <= k < s.len(),
        !is_ws_char(s[k]),
    ensures
        exists|j: int| 0 <= j < trim_front(s).len() && !is_ws_char(#[trigger] trim_front(s)[j]),
    decreases s.len(),
{
    if is_ws_char(s[0]) {
        assert(s.skip(1)[k - 1] == s[k]);
        lemma_trim_front_keeps_nonws(s.skip(1), k - 1);
        assert(trim_front(s) == trim_front(s.skip(1)));
        let j = choose|j: int|
            0 <= j < trim_front(s.skip(1)).len() && !is_ws_char(
                #[trigger] trim_front(s.skip(1))[j],
            );
        assert(!is_ws_char(trim_front(s)[j]));
    } else {
        assert(!is_ws_char(trim_front(s)[0]));
    }
}

proof fn lemma_trim_back_keeps_nonws(s: Seq<char>, k: int)
    requires
        0 <= k < s.len(),
        !is_ws_char(s[k]),
    ensures
        trim_back(s).len() > 0,
    decreases s.len(),
{
    if is_ws_char(s[s.len() - 1]) {
        lemma_trim_back_keeps_nonws(s.take(s.len() - 1), k);
    }
}

/// A string is blank exactly when trimming leaves nothing of it.
pub proof fn lemma_blank_iff_trim_empty(s: Seq<char>)
    ensures
        is_blank(s) <==> trim_spec(s).len() == 0,
{
    if is_blank(s) {
        lemma_trim_front_skip(s, s.len() as int);
        assert(s.skip(s.len() as int).len() == 0);
    } else {
        let k = choose|k: int| 0 <= k < s.len() && !is_ws_char(#[trigger] s[k]);
        lemma_trim_front_keeps_nonws(s, k);
        let j = choose|j: int|
            0 <= j < trim_front(s).len() && !is_ws_char(#[trigger] trim_front(s)[j]);
        lemma_trim_back_keeps_nonws(trim_front(s), j);
    }
}

/// Relies on `String::push` of std: appends the given character to the end
/// of the string.
#[verifier::external_body]
pub(crate) fn push_char(s: &mut String, c: char)
    ensures
        final(s)@ == old(s)@.push(c),
{
    s.push(c);
}

/// Trims whitespace from both ends of `s`, as every prompt line is trimmed
/// before a note body is stored or a command is read.
pub fn trim(s: &str) -> (r: &str)
    ensures
        r@ == trim_spec(s@),
{
    let n = s.unicode_len();
    let mut a: usize = 0;
    while a < n && is_ws(s.get_char(a))
        invariant
            0 <= a <= n,
            n == s@.len(),
            forall|k: int| 0 <= k < a ==> is_ws_char(#[trigger] s@[k]),
        decreases n - a,
    {
        a = a + 1;
    }
    proof {
        lemma_trim_front_skip(s@, a as int);
    }
    let mut b: usize = n;
    while b > a && is_ws(s.get_char(b - 1))
        invariant
            a <= b <= n,
            n == s@.len(),
            forall|k: int| b <= k < n ==> is_ws_char(#[trigger] s@[k]),
        decreases b,
    {
        b = b - 1;
    }
    proof {
        let t = s@.skip(a as int);
        lemma_trim_back_take(t, b - a);
        assert(t.take(b - a) =~= s@.subrange(a as int, b as int));
    }
    s.substring_char(a, b)
}

} // verus!
