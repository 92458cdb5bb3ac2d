use vstd::prelude::*;
use vstd::string::*;

verus! {

/// The lower-case form of an ASCII letter; any other character as it is.
pub open spec fn spec_ascii_lower(c: char) -> char {
    if 'A' <= c && c <= 'Z' {
        ((c as u32) + 32) as char
    } else {
        c
    }
}

/// The lower-case form of an ASCII letter; any other character as it is.
#[verifier::when_used_as_spec(spec_ascii_lower)]
pub fn ascii_lower(c: char) -> (r: char)
    ensures
        r == spec_ascii_lower(c),
{
    if 'A' <= c && c <= 'Z' {
        ((c as u8) + 32) as char
    } else {
        c
    }
}

/// A text with its ASCII letters in lower case.
pub open spec fn lower(s: Seq<char>) -> Seq<char> {
    s.map_values(|c: char| ascii_lower(c))
}

/// Whether `part` stands somewhere in `whole`.
pub open spec fn contains_text(whole: Seq<char>, part: Seq<char>) -> bool {
    exists|i: int| #[trigger] occurs_at(whole, part, i)
}

/// Whether `part` stands in `whole` at position `i`.
pub open spec fn occurs_at(whole: Seq<char>, part: Seq<char>, i: int) -> bool {
    0 <= i && i + part.len() <= whole.len() && whole.subrange(i, i + part.len()) == part
}

/// `String::push` puts the character at the end of the text.
pub assume_specification[ String::push ](s: &mut String, ch: char)
    ensures
        final(s)@ == old(s)@.push(ch),
;

/// A text with its ASCII letters in lower case.
pub fn lower_text(s: &str) -> (r: String)
    ensures
        r@ == lower(s@),
{
    let mut out: String = String::new();
    let chars: Vec<char> = chars_of(s);
    let mut i: usize = 0;
    while i < chars.len()
        invariant
            i <= chars@.len(),
            chars@ == s@,
            out@ == lower(s@).take(i as int),
        decreases chars@.len() - i,
    {
        out.push(ascii_lower(chars[i]));
        i = i + 1;
    }
    assert(lower(s@).take(s@.len() as int) =~= lower(s@));
    out
}

/// Whether two texts are the same.
pub fn same_text(a: &str, b: &str) -> (r: bool)
    ensures
        r == (a@ == b@),
{
    a.to_owned() == b.to_owned()
}

/// The characters of a text.
pub fn chars_of(s: &str) -> (r: Vec<char>)
    ensures
        r@ == s@,
{
    let mut out: Vec<char> = Vec::new();
    for c in it: s.chars()
        invariant
            it.seq() == s@,
            out@ == s@.take(it.index() as int),
    {
        out.push(c);
        assert(s@.take(it.index() + 1) =~= s@.take(it.index() as int).push(c));
    }
    assert(s@.take(s@.len() as int) =~= s@);
    out
}

/// Whether `part` stands somewhere in `whole`.
pub fn has_text(whole: &str, part: &str) -> (r: bool)
    ensures
        r == contains_text(whole@, part@),
{
    let w: Vec<char> = chars_of(whole);
    let p: Vec<char> = chars_of(part);
    if p.len() > w.len() {
        return false;
    }
    let mut i: usize = 0;
    while i <= w.len() - p.len()
        invariant
            w@ == whole@,
            p@ == part@,
            p@.len() <= w@.len(),
            i <= w@.len() - p@.len() + 1,
            forall|k: int| 0 <= k < i ==> !#[trigger] occurs_at(whole@, part@, k),
        decreases w@.len() + 1 - i,
    {
        let mut j: usize = 0;
        while j < p.len() && w[i + j] == p[j]
            invariant
                i + p@.len() <= w.len(),
                j <= p@.len(),
                forall|k: int| 0 <= k < j ==> w@[i + k] == p@[k],
            decreases p@.len() - j,
        {
            j = j + 1;
        }
        if j == p.len() {
            proof {
                assert(whole@.subrange(i as int, i + part@.len()) =~= part@);
                assert(occurs_at(whole@, part@, i as int));
            }
            return true;
        }
        proof {
            if occurs_at(whole@, part@, i as int) {
                assert(whole@.subrange(i as int, i + part@.len())[j as int] == w@[i + j]);
            }
        }
        i = i + 1;
    }
    false
}

/// The decimal digit `d`.
pub open spec fn digit(d: int) -> char {
    (48 + d) as u8 as char
}

/// A number written in decimal.
pub open spec fn decimal(n: nat) -> Seq<char>
    decreases n,
{
    if n < 10 {
        seq![digit(n as int)]
    } else {
        decimal(n / 10).push(digit((n % 10) as int))
    }
}

/// Append a number in decimal to a text.
pub fn append_decimal(out: &mut String, n: usize)
    ensures
        final(out)@ == old(out)@ + decimal(n as nat),
    decreases n,
{
    if n >= 10 {
        append_decimal(out, n / 10);
    }
    out.push((48 + (n % 10) as u8) as char);
    proof {
        assert(out@ =~= old(out)@ + decimal(n as nat));
    }
}

/// A capital letter becomes the small letter at its place in the alphabet;
/// every other character stays.
pub proof fn law_lower_keeps_letter(c: char)
    ensures
        'A' <= c && c <= 'Z' ==> (spec_ascii_lower(c) as int) - ('a' as int) == (c as int) - ('A' as int),
        c < 'A' || 'Z' < c ==> spec_ascii_lower(c) == c,
{
}

/// A text keeps its length in lower case, and lower case changes no more.
pub proof fn law_lower_settles(s: Seq<char>)
    ensures
        lower(s).len() == s.len(),
        lower(lower(s)) == lower(s),
{
    assert(lower(lower(s)) =~= lower(s));
}

/// A text stands in another where the other is made up of something, the
/// text, and something.
pub proof fn law_contained_between(whole: Seq<char>, part: Seq<char>)
    ensures
        contains_text(whole, part) <==> exists|before: Seq<char>, after: Seq<char>|
            whole == #[trigger] (before + part + after),
{
    if contains_text(whole, part) {
        let i = choose|i: int| #[trigger] occurs_at(whole, part, i);
        let before = whole.take(i);
        let after = whole.skip(i + part.len());
        assert(whole =~= before + part + after);
    }
    if exists|before: Seq<char>, after: Seq<char>| whole == #[trigger] (before + part + after) {
        let (before, after) = choose|before: Seq<char>, after: Seq<char>|
            whole == #[trigger] (before + part + after);
        assert(whole.subrange(before.len() as int, (before.len() + part.len()) as int) =~= part);
        assert(occurs_at(whole, part, before.len() as int));
    }
}

} // verus!
