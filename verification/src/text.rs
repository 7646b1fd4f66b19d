//! Text helpers shared by the token model: blanks, byte widths and
//! comparison with literals.
use vstd::prelude::*;
use vstd::string::*;
use vstd::utf8::*;

verus! {

/// A run of `n` blanks.
pub open spec fn spaces(n: nat) -> Seq<char> {
    Seq::new(n, |i: int| ' ')
}

/// Width of `s` in bytes once encoded as UTF-8. This is what `str::len`
/// measures, and what the layout resolver compares with the line limit.
pub open spec fn byte_len(s: Seq<char>) -> nat {
    encode_utf8(s).len()
}

/// The encoding of a concatenation is the concatenation of the encodings.
pub proof fn lemma_encode_concat(a: Seq<char>, b: Seq<char>)
    ensures
        encode_utf8(a + b) == encode_utf8(a) + encode_utf8(b),
    decreases a.len(),
{
    if a.len() == 0 {
        assert(a + b =~= b);
        assert(encode_utf8(a) + encode_utf8(b) =~= encode_utf8(b));
    } else {
        assert((a + b).drop_first() =~= a.drop_first() + b);
        assert((a + b)[0] == a[0]);
        lemma_encode_concat(a.drop_first(), b);
        assert(encode_utf8(a + b) =~= encode_utf8(a) + encode_utf8(b));
    }
}

/// Byte widths add up over concatenation.
pub proof fn lemma_byte_len_concat(a: Seq<char>, b: Seq<char>)
    ensures
        byte_len(a + b) == byte_len(a) + byte_len(b),
{
    lemma_encode_concat(a, b);
}

/// Builds a string of `n` blanks.
pub fn blanks(n: u32) -> (s: String)
    ensures
        s@ == spaces(n as nat),
{
    let mut s = String::new();
    let mut i: u32 = 0;
    assert(s@ =~= spaces(0));
    while i < n
        invariant
            i <= n,
            s@ == spaces(i as nat),
        decreases n - i,
    {
        proof {
            reveal_strlit(" ");
        }
        s.append(" ");
        i = i + 1;
        assert(s@ =~= spaces(i as nat));
    }
    s
}

/// Whether `s` holds exactly the text of `lit`.
pub fn same_text(s: &String, lit: &str) -> (b: bool)
    ensures
        b == (s@ == lit@),
{
    let other = lit.to_string();
    *s == other
}

/// `a` followed by `b`, as a new string.
pub fn joined(a: &String, b: &str) -> (s: String)
    ensures
        s@ == a@ + b@,
{
    let mut s = a.clone();
    s.append(b);
    s
}

/// The characters that Unicode gives the property `White_Space`.
pub open spec fn is_whitespace(c: char) -> bool {
    let u = c as u32;
    ||| 0x09 <= u <= 0x0D
    ||| u == 0x20
    ||| u == 0x85
    ||| u == 0xA0
    ||| u == 0x1680
    ||| 0x2000 <= u <= 0x200A
    ||| u == 0x2028
    ||| u == 0x2029
    ||| u == 0x202F
    ||| u == 0x205F
    ||| u == 0x3000
}

/// `s` without the whitespace at its two ends.
pub open spec fn trimmed(s: Seq<char>) -> Seq<char>
    decreases s.len(),
{
    if s.len() > 0 && is_whitespace(s[0]) {
        trimmed(s.drop_first())
    } else if s.len() > 0 && is_whitespace(s.last()) {
        trimmed(s.drop_last())
    } else {
        s
    }
}

/// A text of whitespace only trims to nothing.
pub proof fn lemma_trimmed_blank(s: Seq<char>)
    requires
        forall|i: int| 0 <= i < s.len() ==> is_whitespace(#[trigger] s[i]),
    ensures
        trimmed(s) == Seq::<char>::empty(),
    decreases s.len(),
{
    if s.len() > 0 {
        let rest = s.drop_first();
        assert forall|i: int| 0 <= i < rest.len() implies is_whitespace(#[trigger] rest[i]) by {
            assert(rest[i] == s[i + 1]);
        }
        lemma_trimmed_blank(rest);
    }
}

/// Trimming keeps what lies from the first to the last character that is no
/// whitespace.
pub proof fn lemma_trimmed_span(s: Seq<char>, from: int, to: int)
    requires
        0 <= from < to <= s.len(),
        !is_whitespace(s[from]),
        !is_whitespace(s[to - 1]),
        forall|i: int| 0 <= i < from ==> is_whitespace(#[trigger] s[i]),
        forall|i: int| to <= i < s.len() ==> is_whitespace(#[trigger] s[i]),
    ensures
        trimmed(s) == s.subrange(from, to),
    decreases s.len(),
{
    if from > 0 {
        let rest = s.drop_first();
        assert(is_whitespace(s[0]));
        assert forall|i: int| 0 <= i < from - 1 implies is_whitespace(#[trigger] rest[i]) by {
            assert(rest[i] == s[i + 1]);
        }
        assert forall|i: int| to - 1 <= i < rest.len() implies is_whitespace(
            #[trigger] rest[i],
        ) by {
            assert(rest[i] == s[i + 1]);
        }
        lemma_trimmed_span(rest, from - 1, to - 1);
        assert(rest.subrange(from - 1, to - 1) =~= s.subrange(from, to));
    } else if to < s.len() {
        let rest = s.drop_last();
        assert(is_whitespace(s.last()));
        assert forall|i: int| to <= i < rest.len() implies is_whitespace(#[trigger] rest[i]) by {
            assert(rest[i] == s[i]);
        }
        lemma_trimmed_span(rest, from, to);
        assert(rest.subrange(from, to) =~= s.subrange(from, to));
    } else {
        assert(s.subrange(from, to) =~= s);
    }
}

/// Whether `c` is whitespace.
pub fn char_is_whitespace(c: char) -> (b: bool)
    ensures
        b == is_whitespace(c),
{
    let u = c as u32;
    (0x09 <= u && u <= 0x0D) || u == 0x20 || u == 0x85 || u == 0xA0 || u == 0x1680 || (0x2000 <= u
        && u <= 0x200A) || u == 0x2028 || u == 0x2029 || u == 0x202F || u == 0x205F || u == 0x3000
}

/// `s` without the whitespace at its two ends.
pub fn trim_text(s: &str) -> (r: String)
    ensures
        r@ == trimmed(s@),
{
    let mut from: usize = 0;
    let mut to: usize = 0;
    let mut idx: usize = 0;
    let n = s.unicode_len();
    for c in it: s.chars()
        invariant
            it.seq() == s@,
            n == s@.len(),
            idx == it.index(),
            idx <= n,
            to <= idx,
            to == 0 ==> forall|i: int| 0 <= i < idx ==> is_whitespace(#[trigger] s@[i]),
            to > 0 ==> {
                &&& from < to
                &&& !is_whitespace(s@[from as int])
                &&& !is_whitespace(s@[to - 1])
                &&& forall|i: int| 0 <= i < from ==> is_whitespace(#[trigger] s@[i])
                &&& forall|i: int| to <= i < idx ==> is_whitespace(#[trigger] s@[i])
            },
    {
        if !char_is_whitespace(c) {
            if to == 0 {
                from = idx;
            }
            to = idx + 1;
        }
        idx = idx + 1;
    }
    if to == 0 {
        proof {
            lemma_trimmed_blank(s@);
        }
        String::new()
    } else {
        proof {
            lemma_trimmed_span(s@, from as int, to as int);
        }
        s.substring_char(from, to).to_string()
    }
}

/// Whether `s` holds a newline.
pub fn has_newline(s: &str) -> (b: bool)
    ensures
        b == s@.contains('\n'),
{
    let mut found = false;
    for c in it: s.chars()
        invariant
            found == exists|k: int| 0 <= k < it.index() && it.seq()[k] == '\n',
            it.seq() == s@,
    {
        if c == '\n' {
            found = true;
        }
    }
    found
}

/// `s` without one newline at its end, if it ends with one.
pub open spec fn without_trailing_newline(s: Seq<char>) -> Seq<char> {
    if s.len() > 0 && s.last() == '\n' {
        s.drop_last()
    } else {
        s
    }
}

/// Takes one newline from the end of `s`, if it ends with one.
pub fn strip_trailing_newline(s: String) -> (r: String)
    ensures
        r@ == without_trailing_newline(s@),
{
    let n = s.as_str().unicode_len();
    if n > 0 && s.as_str().get_char(n - 1) == '\n' {
        let r = s.as_str().substring_char(0, n - 1).to_string();
        assert(r@ =~= s@.drop_last());
        r
    } else {
        s
    }
}

/// `s` without its single quotes.
pub open spec fn without_quotes(s: Seq<char>) -> Seq<char> {
    s.filter(|c: char| c != '\'')
}

/// Takes every single quote out of `s`.
pub fn strip_quotes(s: &str) -> (r: String)
    ensures
        r@ == without_quotes(s@),
{
    let n = s.unicode_len();
    let mut r = String::new();
    let mut i: usize = 0;
    assert(s@.take(0) =~= Seq::<char>::empty());
    while i < n
        invariant
            i <= n,
            n == s@.len(),
            r@ == without_quotes(s@.take(i as int)),
        decreases n - i,
    {
        let c = s.get_char(i);
        proof {
            assert(s@.take(i + 1).drop_last() =~= s@.take(i as int));
            assert(s@.take(i + 1).last() == c);
            reveal(Seq::filter);
        }
        if c != '\'' {
            let piece = s.substring_char(i, i + 1);
            assert(piece@ =~= seq![c]);
            r.append(piece);
            assert(r@ =~= without_quotes(s@.take(i as int)).push(c));
        }
        i = i + 1;
    }
    assert(s@.take(n as int) =~= s@);
    r
}

} // verus!
