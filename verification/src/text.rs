//! Characters, their encoded widths, and building strings from them.
use vstd::prelude::*;

verus! {

/// The number of bytes `c` takes in UTF-8.
pub open spec fn utf8_width(c: char) -> nat {
    let v = c as u32;
    if v <= 0x7F {
        1
    } else if v <= 0x7FF {
        2
    } else if v <= 0xFFFF {
        3
    } else {
        4
    }
}

/// The number of UTF-16 code units `c` takes: two for a surrogate pair.
pub open spec fn utf16_width(c: char) -> nat {
    if (c as u32) <= 0xFFFF {
        1
    } else {
        2
    }
}

/// The UTF-8 length of a run of characters.
pub open spec fn byte_len(cs: Seq<char>) -> nat
    decreases cs.len(),
{
    if cs.len() == 0 {
        0
    } else {
        byte_len(cs.drop_last()) + utf8_width(cs.last())
    }
}

/// The UTF-16 length of a run of characters.
pub open spec fn utf16_len(cs: Seq<char>) -> nat
    decreases cs.len(),
{
    if cs.len() == 0 {
        0
    } else {
        utf16_len(cs.drop_last()) + utf16_width(cs.last())
    }
}

/// The UTF-8 width of a character, computed.
pub fn len_utf8(c: char) -> (n: usize)
    ensures
        n == utf8_width(c),
{
    let v = c as u32;
    if v <= 0x7F {
        1
    } else if v <= 0x7FF {
        2
    } else if v <= 0xFFFF {
        3
    } else {
        4
    }
}

/// The UTF-16 width of a character, computed.
pub fn len_utf16(c: char) -> (n: usize)
    ensures
        n == utf16_width(c),
{
    if (c as u32) <= 0xFFFF {
        1
    } else {
        2
    }
}

/// A byte length splits over concatenation.
pub proof fn lemma_byte_len_concat(a: Seq<char>, b: Seq<char>)
    ensures
        byte_len(a + b) == byte_len(a) + byte_len(b),
    decreases b.len(),
{
    if b.len() == 0 {
        assert(a + b =~= a);
    } else {
        lemma_byte_len_concat(a, b.drop_last());
        assert((a + b).drop_last() =~= a + b.drop_last());
    }
}

/// A UTF-16 length splits over concatenation.
pub proof fn lemma_utf16_len_concat(a: Seq<char>, b: Seq<char>)
    ensures
        utf16_len(a + b) == utf16_len(a) + utf16_len(b),
    decreases b.len(),
{
    if b.len() == 0 {
        assert(a + b =~= a);
    } else {
        lemma_utf16_len_concat(a, b.drop_last());
        assert((a + b).drop_last() =~= a + b.drop_last());
    }
}

/// The characters of `text`, in order.
pub fn chars_of(text: &str) -> (out: Vec<char>)
    ensures
        out@ == text@,
{
    let mut out: Vec<char> = Vec::new();
    for c in it: text.chars()
        invariant
            out@ == it.seq().take(it.index() as int),
    {
        out.push(c);
    }
    out
}

/// Appends one character to a string (`String::push`).
#[verifier::external_body]
pub fn push_char(s: &mut String, c: char)
    ensures
        final(s)@ == old(s)@.push(c),
{
    s.push(c);
}

/// Appends a string slice (`String::push_str`).
#[verifier::external_body]
pub fn push_str(s: &mut String, t: &str)
    ensures
        final(s)@ == old(s)@ + t@,
{
    s.push_str(t);
}

/// A string holding exactly the given characters.
pub fn string_of(cs: &[char]) -> (s: String)
    ensures
        s@ == cs@,
{
    let mut s = String::new();
    let mut i: usize = 0;
    while i < cs.len()
        invariant
            i <= cs.len(),
            s@ == cs@.take(i as int),
        decreases cs.len() - i,
    {
        push_char(&mut s, cs[i]);
        i = i + 1;
        assert(cs@.take(i as int) =~= cs@.take(i - 1 as int).push(cs@[i - 1]));
    }
    assert(cs@.take(i as int) =~= cs@);
    s
}

/// The length of a string in bytes (`str::len`): the sum of its
/// characters' UTF-8 widths. No allocation is larger than `isize::MAX` bytes,
/// so neither is a string.
#[verifier::external_body]
pub fn str_len(text: &str) -> (n: usize)
    ensures
        n == byte_len(text@),
        n <= isize::MAX,
{
    text.len()
}


/// Whether `c` has the Unicode `White_Space` property, which is what
/// `char::is_whitespace` tests.
pub open spec fn is_space(c: char) -> bool {
    let v = c as u32;
    (0x9 <= v <= 0xD) || v == 0x20 || v == 0x85 || v == 0xA0 || v == 0x1680 || (0x2000 <= v
        <= 0x200A) || v == 0x2028 || v == 0x2029 || v == 0x202F || v == 0x205F || v == 0x3000
}

/// `char::is_whitespace`.
pub fn is_whitespace(c: char) -> (r: bool)
    ensures
        r == is_space(c),
{
    let v = c as u32;
    (0x9 <= v && v <= 0xD) || v == 0x20 || v == 0x85 || v == 0xA0 || v == 0x1680 || (0x2000 <= v
        && v <= 0x200A) || v == 0x2028 || v == 0x2029 || v == 0x202F || v == 0x205F || v == 0x3000
}

/// What is left of `cs` once leading whitespace is gone.
pub open spec fn trim_start(cs: Seq<char>) -> Seq<char>
    decreases cs.len(),
{
    if cs.len() > 0 && is_space(cs[0]) {
        trim_start(cs.drop_first())
    } else {
        cs
    }
}

/// What is left of `cs` once trailing whitespace is gone.
pub open spec fn trim_end(cs: Seq<char>) -> Seq<char>
    decreases cs.len(),
{
    if cs.len() > 0 && is_space(cs.last()) {
        trim_end(cs.drop_last())
    } else {
        cs
    }
}

/// `str::trim`: both ends without whitespace.
pub open spec fn trim(cs: Seq<char>) -> Seq<char> {
    trim_end(trim_start(cs))
}

/// The index of the first character that is not whitespace.
pub fn skip_spaces(cs: &[char], from: usize) -> (i: usize)
    requires
        from <= cs.len(),
    ensures
        from <= i <= cs.len(),
        trim_start(cs@.subrange(from as int, cs@.len() as int)) == cs@.subrange(i as int, cs@.len() as int),
{
    let mut i = from;
    while i < cs.len() && is_whitespace(cs[i])
        invariant
            from <= i <= cs.len(),
            trim_start(cs@.subrange(from as int, cs@.len() as int)) == trim_start(cs@.subrange(i as int, cs@.len() as int)),
        decreases cs.len() - i,
    {
        assert(cs@.subrange(i as int, cs@.len() as int).drop_first() =~= cs@.subrange(i + 1, cs@.len() as int));
        i = i + 1;
    }
    if i < cs.len() {
        assert(cs@.subrange(i as int, cs@.len() as int)[0] == cs@[i as int]);
    }
    i
}

/// The index just past the last character that is not whitespace, looking no
/// further back than `from`.
pub fn end_of_text(cs: &[char], from: usize) -> (j: usize)
    requires
        from <= cs.len(),
    ensures
        from <= j <= cs.len(),
        trim_end(cs@.subrange(from as int, cs@.len() as int)) == cs@.subrange(from as int, j as int),
{
    let mut j = cs.len();
    while j > from && is_whitespace(cs[j - 1])
        invariant
            from <= j <= cs.len(),
            trim_end(cs@.subrange(from as int, cs@.len() as int)) == trim_end(cs@.subrange(from as int, j as int)),
        decreases j,
    {
        assert(cs@.subrange(from as int, j as int).drop_last() =~= cs@.subrange(from as int, j - 1));
        j = j - 1;
    }
    j
}

/// The characters of `text` without leading or trailing whitespace.
pub fn trimmed_chars(text: &str) -> (out: Vec<char>)
    ensures
        out@ == trim(text@),
{
    let cs = chars_of(text);
    let i = skip_spaces(&cs, 0);
    let j = end_of_text(&cs, i);
    assert(cs@.subrange(0, cs@.len() as int) =~= cs@);
    slice_chars(&cs, i, j)
}

/// A copy of `cs[from..to]`.
pub fn slice_chars(cs: &[char], from: usize, to: usize) -> (out: Vec<char>)
    requires
        from <= to <= cs.len(),
    ensures
        out@ == cs@.subrange(from as int, to as int),
{
    let mut out: Vec<char> = Vec::new();
    let mut i = from;
    while i < to
        invariant
            from <= i <= to <= cs.len(),
            out@ == cs@.subrange(from as int, i as int),
        decreases to - i,
    {
        out.push(cs[i]);
        i = i + 1;
        assert(out@ =~= cs@.subrange(from as int, i as int));
    }
    out
}

/// Whether two strings hold the same characters.
pub fn str_eq(a: &str, b: &str) -> (r: bool)
    ensures
        r == (a@ == b@),
{
    let x = chars_of(a);
    let y = chars_of(b);
    chars_eq(&x, &y)
}

/// Whether two runs of characters are the same.
pub fn chars_eq(x: &[char], y: &[char]) -> (r: bool)
    ensures
        r == (x@ == y@),
{
    if x.len() != y.len() {
        return false;
    }
    let mut i: usize = 0;
    while i < x.len()
        invariant
            x@.len() == y@.len(),
            i <= x.len(),
            forall|k: int| 0 <= k < i ==> x@[k] == y@[k],
        decreases x.len() - i,
    {
        if x[i] != y[i] {
            return false;
        }
        i = i + 1;
    }
    assert(x@ =~= y@);
    true
}

/// Appends the characters of `cs` to `s`.
pub fn push_chars(s: &mut String, cs: &[char])
    ensures
        final(s)@ == old(s)@ + cs@,
{
    let mut i: usize = 0;
    while i < cs.len()
        invariant
            i <= cs.len(),
            s@ == old(s)@ + cs@.take(i as int),
        decreases cs.len() - i,
    {
        push_char(s, cs[i]);
        i = i + 1;
        assert(old(s)@ + cs@.take(i as int) =~= old(s)@ + cs@.take(i - 1 as int) + seq![cs@[i - 1]]);
    }
    assert(cs@.take(i as int) =~= cs@);
}


/// The pieces `str::split_inclusive('\n')` yields: each line with its line
/// break, the last one without when the text does not end in one.
pub open spec fn split_inclusive(cs: Seq<char>) -> Seq<Seq<char>>
    decreases cs.len(),
{
    if cs.len() == 0 {
        Seq::empty()
    } else {
        let rest = split_inclusive(cs.drop_last());
        if rest.len() == 0 || rest.last().last() == '\n' {
            rest.push(seq![cs.last()])
        } else {
            rest.update(rest.len() - 1, rest.last().push(cs.last()))
        }
    }
}

/// The concatenation of a run of pieces.
pub open spec fn concat(pieces: Seq<Seq<char>>) -> Seq<char>
    decreases pieces.len(),
{
    if pieces.len() == 0 {
        Seq::empty()
    } else {
        concat(pieces.drop_last()) + pieces.last()
    }
}

/// A line as `str::lines` gives it: without its `\n`, and without a `\r`
/// that came right before that `\n`.
pub open spec fn strip_break(piece: Seq<char>) -> Seq<char> {
    if piece.len() > 0 && piece.last() == '\n' {
        let body = piece.drop_last();
        if body.len() > 0 && body.last() == '\r' {
            body.drop_last()
        } else {
            body
        }
    } else {
        piece
    }
}

/// The lines `str::lines` yields.
pub open spec fn lines_of(cs: Seq<char>) -> Seq<Seq<char>> {
    split_inclusive(cs).map_values(|piece: Seq<char>| strip_break(piece))
}

/// `n` spaces.
pub open spec fn spaces(n: nat) -> Seq<char> {
    Seq::new(n, |i: int| ' ')
}

/// Splitting then joining gives the text back, and every piece but the last
/// ends in a line break while no piece holds one anywhere else.
pub proof fn lemma_split_inclusive(cs: Seq<char>)
    ensures
        concat(split_inclusive(cs)) == cs,
        forall|i: int| 0 <= i < split_inclusive(cs).len() ==> #[trigger] split_inclusive(cs)[i].len() > 0,
        forall|i: int| 0 <= i < split_inclusive(cs).len() - 1 ==> #[trigger] split_inclusive(cs)[i].last() == '\n',
    decreases cs.len(),
{
    if cs.len() > 0 {
        let rest = split_inclusive(cs.drop_last());
        lemma_split_inclusive(cs.drop_last());
        let out = split_inclusive(cs);
        if rest.len() == 0 || rest.last().last() == '\n' {
            assert(out.drop_last() =~= rest);
            assert(cs =~= cs.drop_last() + seq![cs.last()]);
        } else {
            assert(out.drop_last() =~= rest.drop_last());
            assert(rest =~= rest.drop_last().push(rest.last()));
            assert(concat(rest) == concat(rest.drop_last()) + rest.last());
            assert(cs =~= cs.drop_last().push(cs.last()));
            assert(cs.drop_last() == concat(rest.drop_last()) + rest.last());
            assert((concat(rest.drop_last()) + rest.last()).push(cs.last()) =~= concat(rest.drop_last()) + rest.last().push(cs.last()));
            assert(out.last() == rest.last().push(cs.last()));
        }
    }
}

/// The pieces of `cs`, each a copy, as `split_inclusive('\n')` gives them.
pub fn split_inclusive_lines(cs: &[char]) -> (out: Vec<Vec<char>>)
    ensures
        out@.len() == split_inclusive(cs@).len(),
        forall|i: int| 0 <= i < out@.len() ==> #[trigger] out@[i]@ == split_inclusive(cs@)[i],
{
    let mut out: Vec<Vec<char>> = Vec::new();
    let mut current: Vec<char> = Vec::new();
    let mut i: usize = 0;
    while i < cs.len()
        invariant
            i <= cs.len(),
            ({
                let whole = split_inclusive(cs@.take(i as int));
                if current@.len() == 0 {
                    &&& out@.len() == whole.len()
                    &&& forall|k: int| 0 <= k < out@.len() ==> #[trigger] out@[k]@ == whole[k]
                    &&& (whole.len() == 0 || whole.last().last() == '\n')
                } else {
                    &&& out@.len() + 1 == whole.len()
                    &&& forall|k: int| 0 <= k < out@.len() ==> #[trigger] out@[k]@ == whole[k]
                    &&& whole.last() == current@
                    &&& current@.last() != '\n'
                }
            }),
        decreases cs.len() - i,
    {
        let c = cs[i];
        proof {
            assert(cs@.take(i + 1).drop_last() =~= cs@.take(i as int));
            lemma_split_inclusive(cs@.take(i as int));
        }
        current.push(c);
        if c == '\n' {
            out.push(current);
            current = Vec::new();
        }
        i = i + 1;
    }
    if current.len() > 0 {
        out.push(current);
    }
    assert(cs@.take(i as int) =~= cs@);
    out
}


/// Each character of `cs` replaced by what `f` makes of it, in order.
pub open spec fn flat_map(cs: Seq<char>, f: spec_fn(char) -> Seq<char>) -> Seq<char>
    decreases cs.len(),
{
    if cs.len() == 0 {
        Seq::empty()
    } else {
        flat_map(cs.drop_last(), f) + f(cs.last())
    }
}

/// A lower-case hexadecimal digit.
pub open spec fn hex_char(d: u32) -> char {
    if d < 10 {
        ((d + 48) as u8) as char
    } else {
        ((d + 87) as u8) as char
    }
}

/// The lower-case hexadecimal digit for `d`, which is below sixteen.
pub fn hex_digit(d: u32) -> (c: char)
    requires
        d < 16,
    ensures
        c == hex_char(d),
{
    if d < 10 {
        ((d + 48) as u8) as char
    } else {
        ((d + 87) as u8) as char
    }
}


/// What `char::is_alphanumeric` says of `c`: the Unicode `Alphabetic` or
/// `Numeric` properties.
pub uninterp spec fn alphanumeric(c: char) -> bool;

/// `char::is_alphanumeric`. Beyond naming its result, the contract states
/// only what it is on ASCII: letters and digits, and nothing else.
#[verifier::external_body]
pub fn is_alphanumeric(c: char) -> (r: bool)
    ensures
        r == alphanumeric(c),
        (c as u32) < 0x80 ==> (r <==> ('a' <= c <= 'z' || 'A' <= c <= 'Z' || '0' <= c <= '9')),
{
    c.is_alphanumeric()
}

/// The characters `char::to_lowercase` yields for `c`.
pub uninterp spec fn lowercase_of(c: char) -> Seq<char>;

/// `char::to_lowercase`, collected. Beyond naming its result, the contract
/// states only what it is on ASCII: an upper-case letter becomes its lower-case
/// letter, and every other ASCII character stays as it is.
#[verifier::external_body]
pub fn to_lowercase(c: char) -> (r: Vec<char>)
    ensures
        r@ == lowercase_of(c),
        'A' <= c <= 'Z' ==> r@ == seq![((c as u32) + 32) as char],
        (c as u32) < 0x80 && !('A' <= c <= 'Z') ==> r@ == seq![c],
{
    c.to_lowercase().collect()
}

/// The characters `char::to_uppercase` yields for `c`.
pub uninterp spec fn uppercase_of(c: char) -> Seq<char>;

/// `char::to_uppercase`, collected. Beyond naming its result, the contract
/// states only what it is on ASCII: a lower-case letter becomes its
/// upper-case letter, and every other ASCII character stays as it is.
#[verifier::external_body]
pub fn to_uppercase(c: char) -> (r: Vec<char>)
    ensures
        r@ == uppercase_of(c),
        'a' <= c <= 'z' ==> r@ == seq![((c as u32) - 32) as char],
        (c as u32) < 0x80 && !('a' <= c <= 'z') ==> r@ == seq![c],
{
    c.to_uppercase().collect()
}

/// What `str::to_lowercase` makes of a text: each character's Unicode
/// lower-case mapping, with a capital sigma at the end of a word becoming a
/// final sigma.
pub uninterp spec fn lowercased(s: Seq<char>) -> Seq<char>;

/// `str::to_lowercase`. The contract names the result and states nothing more
/// of it: the mapping is Unicode's, which does not fit in a few lines.
#[verifier::external_body]
pub fn lowercase_str(s: &str) -> (r: String)
    ensures
        r@ == lowercased(s@),
{
    s.to_lowercase()
}

/// A decimal digit.
pub open spec fn is_digit(c: char) -> bool {
    '0' <= c <= '9'
}

/// The lines of `text` as `str::lines` gives them, each a copy.
pub fn lines(text: &[char]) -> (out: Vec<Vec<char>>)
    ensures
        out@.len() == lines_of(text@).len(),
        forall|i: int| 0 <= i < out@.len() ==> #[trigger] out@[i]@ == lines_of(text@)[i],
{
    let pieces = split_inclusive_lines(text);
    let mut out: Vec<Vec<char>> = Vec::new();
    let mut i: usize = 0;
    while i < pieces.len()
        invariant
            i <= pieces.len(),
            pieces@.len() == split_inclusive(text@).len(),
            forall|k: int| 0 <= k < pieces@.len() ==> #[trigger] pieces@[k]@ == split_inclusive(text@)[k],
            out@.len() == i,
            forall|k: int| 0 <= k < i ==> #[trigger] out@[k]@ == strip_break(split_inclusive(text@)[k]),
        decreases pieces.len() - i,
    {
        let piece = &pieces[i];
        let mut end = piece.len();
        if end > 0 && piece[end - 1] == '\n' {
            end = end - 1;
            if end > 0 && piece[end - 1] == '\r' {
                end = end - 1;
            }
        }
        let line = crate::text::slice_chars(piece, 0, end);
        proof {
            let p = piece@;
            if p.len() > 0 && p.last() == '\n' {
                assert(p.drop_last() =~= p.subrange(0, p.len() - 1));
                if p.len() > 1 && p[p.len() - 2] == '\r' {
                    assert(p.drop_last().drop_last() =~= p.subrange(0, p.len() - 2));
                }
            } else {
                assert(p =~= p.subrange(0, p.len() as int));
            }
        }
        out.push(line);
        i = i + 1;
    }
    out
}


/// The character of a decimal digit.
pub open spec fn digit_char(d: nat) -> char {
    (d + 48) as char
}

/// A number in decimal, as `Display` writes it.
pub open spec fn decimal(n: nat) -> Seq<char>
    decreases n,
{
    if n < 10 {
        seq![digit_char(n)]
    } else {
        decimal(n / 10).push(digit_char(n % 10))
    }
}

/// Appends `n` in decimal.
pub fn push_decimal(out: &mut String, n: usize)
    ensures
        final(out)@ == old(out)@ + decimal(n as nat),
    decreases n,
{
    if n >= 10 {
        push_decimal(out, n / 10);
    }
    let d = (n % 10) as u8;
    let c = (48u8 + d) as char;
    assert(c == digit_char((n % 10) as nat));
    push_char(out, c);
    assert(out@ =~= old(out)@ + decimal(n as nat));
}

} // verus!
