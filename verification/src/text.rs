//! Plain text: white space, words, lines and decimal numbers, over characters.

use vstd::prelude::*;

verus! {

/// `String::push`: the text gains the character at its end.
pub assume_specification[ String::push ](s: &mut String, c: char)
    ensures
        final(s)@ == old(s)@.push(c),
;

/// A sequence of texts, as a sequence of character sequences.
pub open spec fn views(texts: Seq<Vec<char>>) -> Seq<Seq<char>> {
    Seq::new(texts.len(), |i: int| texts[i]@)
}

/// Is `c` white space, as Unicode has it?
pub open spec fn is_white(c: char) -> bool {
    let n = c as u32;
    ||| 0x9 <= n <= 0xD
    ||| n == 0x20
    ||| n == 0x85
    ||| n == 0xA0
    ||| n == 0x1680
    ||| 0x2000 <= n <= 0x200A
    ||| n == 0x2028
    ||| n == 0x2029
    ||| n == 0x202F
    ||| n == 0x205F
    ||| n == 0x3000
}

pub open spec fn is_digit(c: char) -> bool {
    '0' <= c <= '9'
}

/// The lower-case form of an ASCII letter, and any other character as it is.
pub open spec fn lower(c: char) -> char {
    if 'A' <= c <= 'Z' {
        (c as u32 + 32) as char
    } else {
        c
    }
}

/// The text with its ASCII letters in lower case.
pub open spec fn lowered(s: Seq<char>) -> Seq<char> {
    s.map_values(|c: char| lower(c))
}

/// The text without the white space it starts with.
pub open spec fn trim_start(s: Seq<char>) -> Seq<char>
    decreases s.len(),
{
    if s.len() > 0 && is_white(s[0]) {
        trim_start(s.skip(1))
    } else {
        s
    }
}

/// The text without the white space it ends with.
pub open spec fn trim_end(s: Seq<char>) -> Seq<char>
    decreases s.len(),
{
    if s.len() > 0 && is_white(s.last()) {
        trim_end(s.drop_last())
    } else {
        s
    }
}

/// The text without the white space around it.
pub open spec fn trim(s: Seq<char>) -> Seq<char> {
    trim_end(trim_start(s))
}

/// The texts with `c` added to the end of the last one.
pub open spec fn extend_last(texts: Seq<Seq<char>>, c: char) -> Seq<Seq<char>> {
    texts.drop_last().push(texts.last().push(c))
}

/// The words of a text: its maximal runs of characters that are not white space.
pub open spec fn words(s: Seq<char>) -> Seq<Seq<char>>
    decreases s.len(),
{
    if s.len() == 0 {
        Seq::empty()
    } else if is_white(s.last()) {
        words(s.drop_last())
    } else if s.len() == 1 || is_white(s[s.len() - 2]) {
        words(s.drop_last()).push(seq![s.last()])
    } else {
        extend_last(words(s.drop_last()), s.last())
    }
}

/// The lines of a text, each with the line feed that ends it.
pub open spec fn raw_lines(s: Seq<char>) -> Seq<Seq<char>>
    decreases s.len(),
{
    if s.len() == 0 {
        Seq::empty()
    } else if s.len() == 1 || s[s.len() - 2] == '\n' {
        raw_lines(s.drop_last()).push(seq![s.last()])
    } else {
        extend_last(raw_lines(s.drop_last()), s.last())
    }
}

/// A line without its line feed, and without the carriage return before that.
pub open spec fn chomp(line: Seq<char>) -> Seq<char> {
    if line.len() > 0 && line.last() == '\n' {
        if line.len() > 1 && line[line.len() - 2] == '\r' {
            line.take(line.len() - 2)
        } else {
            line.drop_last()
        }
    } else {
        line
    }
}

/// The lines of a text, without what ends them.
pub open spec fn lines(s: Seq<char>) -> Seq<Seq<char>> {
    raw_lines(s).map_values(|line: Seq<char>| chomp(line))
}

/// The lines one after the other, each ended by a line feed.
pub open spec fn unlines(all: Seq<Seq<char>>) -> Seq<char>
    decreases all.len(),
{
    if all.len() == 0 {
        Seq::empty()
    } else {
        unlines(all.drop_last()) + all.last().push('\n')
    }
}

/// The parts of a text between the occurrences of `sep`.
pub open spec fn split(s: Seq<char>, sep: char) -> Seq<Seq<char>>
    decreases s.len(),
{
    if s.len() == 0 {
        seq![Seq::empty()]
    } else if s.last() == sep {
        split(s.drop_last(), sep).push(Seq::empty())
    } else {
        extend_last(split(s.drop_last(), sep), s.last())
    }
}

/// The first place from `from` on where `pat` occurs in the text.
pub open spec fn place_of(s: Seq<char>, pat: Seq<char>, from: int) -> Option<int>
    decreases s.len() + 1 - from,
{
    if from < 0 || from + pat.len() > s.len() {
        None
    } else if s.subrange(from, from + pat.len()) == pat {
        Some(from)
    } else {
        place_of(s, pat, from + 1)
    }
}

/// The parts of a text between the occurrences of another text, from `from` on.
pub open spec fn pieces(s: Seq<char>, pat: Seq<char>, from: int) -> Seq<Seq<char>>
    decreases s.len() - from,
    when pat.len() > 0 && 0 <= from <= s.len()
{
    match place_of(s, pat, from) {
        None => seq![s.subrange(from, s.len() as int)],
        Some(i) => if from <= i && i + pat.len() <= s.len() {
            seq![s.subrange(from, i)] + pieces(s, pat, (i + pat.len()) as int)
        } else {
            Seq::empty()
        },
    }
}

/// The texts one after the other, with `sep` between them.
pub open spec fn join(texts: Seq<Seq<char>>, sep: Seq<char>) -> Seq<char>
    decreases texts.len(),
{
    if texts.len() == 0 {
        Seq::empty()
    } else if texts.len() == 1 {
        texts[0]
    } else {
        join(texts.drop_last(), sep) + sep + texts.last()
    }
}

pub open spec fn all_digits(s: Seq<char>) -> bool {
    forall|i: int| 0 <= i < s.len() ==> is_digit(#[trigger] s[i])
}

/// The number that a run of decimal digits writes.
pub open spec fn value(s: Seq<char>) -> nat
    decreases s.len(),
{
    if s.len() == 0 {
        0
    } else {
        value(s.drop_last()) * 10 + (s.last() as nat - '0' as nat) as nat
    }
}

/// The number that a text writes, if it is a run of decimal digits, with or
/// without a plus sign before it.
pub open spec fn number(s: Seq<char>) -> Option<nat> {
    let digits = if s.len() > 0 && s[0] == '+' {
        s.skip(1)
    } else {
        s
    };
    if digits.len() > 0 && all_digits(digits) {
        Some(value(digits))
    } else {
        None
    }
}

/// The number that a text writes, if it writes one of at most `most`.
pub open spec fn number_upto(s: Seq<char>, most: nat) -> Option<nat> {
    match number(s) {
        Some(n) if n <= most => Some(n),
        _ => None,
    }
}

pub open spec fn digit(n: nat) -> char {
    ('0' as nat + n) as char
}

/// A number in decimal digits.
pub open spec fn decimal(n: nat) -> Seq<char>
    decreases n,
{
    if n < 10 {
        seq![digit(n)]
    } else {
        decimal(n / 10).push(digit(n % 10))
    }
}

/// The characters of a text.
pub fn chars_of(s: &str) -> (r: Vec<char>)
    ensures
        r@ == s@,
{
    let mut out: Vec<char> = Vec::new();
    for c in it: s.chars()
        invariant
            out@ =~= it.seq().take(it.index() as int),
            it.seq() == s@,
    {
        out.push(c);
    }
    out
}

/// The text of some characters.
pub fn text_of(s: &Vec<char>) -> (r: String)
    ensures
        r@ == s@,
{
    let mut out: String = String::new();
    let mut i: usize = 0;
    while i < s.len()
        invariant
            i <= s.len(),
            out@ =~= s@.take(i as int),
        decreases s.len() - i,
    {
        out.push(s[i]);
        i += 1;
    }
    assert(s@.take(i as int) =~= s@);
    out
}

/// Adds the characters to the end of a text.
pub fn push_chars(out: &mut String, s: &Vec<char>)
    ensures
        final(out)@ == old(out)@ + s@,
{
    let mut i: usize = 0;
    while i < s.len()
        invariant
            i <= s.len(),
            out@ =~= old(out)@ + s@.take(i as int),
        decreases s.len() - i,
    {
        out.push(s[i]);
        i += 1;
    }
    assert(s@.take(i as int) =~= s@);
}

/// A copy of the characters from `from` up to `to`.
pub fn slice(s: &Vec<char>, from: usize, to: usize) -> (r: Vec<char>)
    requires
        from <= to <= s.len(),
    ensures
        r@ == s@.subrange(from as int, to as int),
{
    let mut out: Vec<char> = Vec::new();
    let mut i: usize = from;
    while i < to
        invariant
            from <= i <= to <= s.len(),
            out@ =~= s@.subrange(from as int, i as int),
        decreases to - i,
    {
        out.push(s[i]);
        i += 1;
    }
    out
}

/// Are these the characters of the text `t`?
pub fn same(s: &Vec<char>, t: &str) -> (r: bool)
    ensures
        r == (s@ == t@),
{
    equal(s, &chars_of(t))
}

pub fn equal(s: &Vec<char>, t: &Vec<char>) -> (r: bool)
    ensures
        r == (s@ == t@),
{
    if s.len() != t.len() {
        return false;
    }
    let mut i: usize = 0;
    while i < s.len()
        invariant
            i <= s.len(),
            s.len() == t.len(),
            s@.take(i as int) =~= t@.take(i as int),
        decreases s.len() - i,
    {
        if s[i] != t[i] {
            assert(s@[i as int] != t@[i as int]);
            return false;
        }
        i += 1;
    }
    assert(s@ =~= t@) by {
        assert(s@.take(i as int) =~= s@);
        assert(t@.take(i as int) =~= t@);
    }
    true
}

/// Do the characters start with the text `t`?
pub fn starts_with(s: &Vec<char>, t: &str) -> (r: bool)
    ensures
        r == t@.is_prefix_of(s@),
{
    let t: Vec<char> = chars_of(t);
    if s.len() < t.len() {
        return false;
    }
    let r: bool = equal(&slice(s, 0, t.len()), &t);
    r
}

pub fn is_white_space(c: char) -> (r: bool)
    ensures
        r == is_white(c),
{
    let n: u32 = c as u32;
    (0x9 <= n && n <= 0xD) || n == 0x20 || n == 0x85 || n == 0xA0 || n == 0x1680 || (0x2000 <= n
        && n <= 0x200A) || n == 0x2028 || n == 0x2029 || n == 0x202F || n == 0x205F || n == 0x3000
}

pub fn to_lower(c: char) -> (r: char)
    ensures
        r == lower(c),
{
    if 'A' <= c && c <= 'Z' {
        ((c as u8) + 32) as char
    } else {
        c
    }
}

/// The characters with the ASCII letters in lower case.
pub fn to_lowered(s: &Vec<char>) -> (r: Vec<char>)
    ensures
        r@ == lowered(s@),
{
    let mut out: Vec<char> = Vec::new();
    let mut i: usize = 0;
    while i < s.len()
        invariant
            i <= s.len(),
            out@ =~= lowered(s@).take(i as int),
        decreases s.len() - i,
    {
        out.push(to_lower(s[i]));
        i += 1;
    }
    out
}

proof fn lemma_trim_start(s: Seq<char>, i: int)
    requires
        0 <= i <= s.len(),
        forall|j: int| 0 <= j < i ==> is_white(#[trigger] s[j]),
        i < s.len() ==> !is_white(s[i]),
    ensures
        trim_start(s) == s.skip(i),
    decreases i,
{
    if i == 0 {
        assert(s.skip(0) =~= s);
    } else {
        let rest = s.skip(1);
        assert forall|j: int| 0 <= j < i - 1 implies is_white(#[trigger] rest[j]) by {
            assert(rest[j] == s[j + 1]);
        }
        lemma_trim_start(rest, i - 1);
        assert(rest.skip(i - 1) =~= s.skip(i));
    }
}

proof fn lemma_trim_end(s: Seq<char>, i: int)
    requires
        0 <= i <= s.len(),
        forall|j: int| i <= j < s.len() ==> is_white(#[trigger] s[j]),
        i > 0 ==> !is_white(s[i - 1]),
    ensures
        trim_end(s) == s.take(i),
    decreases s.len() - i,
{
    if i == s.len() {
        assert(s.take(i) =~= s);
    } else {
        let rest = s.drop_last();
        lemma_trim_end(rest, i);
        assert(rest.take(i) =~= s.take(i));
    }
}

/// The characters without the white space they start with.
pub fn trimmed_start(s: &Vec<char>) -> (r: Vec<char>)
    ensures
        r@ == trim_start(s@),
{
    let mut i: usize = 0;
    while i < s.len() && is_white_space(s[i])
        invariant
            i <= s.len(),
            forall|j: int| 0 <= j < i ==> is_white(#[trigger] s@[j]),
        decreases s.len() - i,
    {
        i += 1;
    }
    proof {
        lemma_trim_start(s@, i as int);
    }
    slice(s, i, s.len())
}

/// The characters without the white space they end with.
pub fn trimmed_end(s: &Vec<char>) -> (r: Vec<char>)
    ensures
        r@ == trim_end(s@),
{
    let mut i: usize = s.len();
    while i > 0 && is_white_space(s[i - 1])
        invariant
            i <= s.len(),
            forall|j: int| i <= j < s.len() ==> is_white(#[trigger] s@[j]),
        decreases i,
    {
        i -= 1;
    }
    proof {
        lemma_trim_end(s@, i as int);
    }
    slice(s, 0, i)
}

/// The characters without the white space around them.
pub fn trimmed(s: &Vec<char>) -> (r: Vec<char>)
    ensures
        r@ == trim(s@),
{
    trimmed_end(&trimmed_start(s))
}

/// The words of a text.
pub fn words_of(s: &Vec<char>) -> (r: Vec<Vec<char>>)
    ensures
        views(r@) == words(s@),
{
    let mut out: Vec<Vec<char>> = Vec::new();
    let mut current: Vec<char> = Vec::new();
    let mut i: usize = 0;
    assert(views(out@) =~= words(s@.take(0)));
    while i < s.len()
        invariant
            i <= s.len(),
            current@.len() > 0 <==> i > 0 && !is_white(s@[i - 1]),
            words(s@.take(i as int)) == if current@.len() == 0 {
                views(out@)
            } else {
                views(out@).push(current@)
            },
        decreases s.len() - i,
    {
        let c: char = s[i];
        let ghost before = views(out@);
        let ghost run = current@;
        assert(s@.take(i + 1).drop_last() =~= s@.take(i as int));
        if is_white_space(c) {
            if current.len() > 0 {
                out.push(current);
                current = Vec::new();
                assert(views(out@) =~= before.push(run));
            }
        } else {
            current.push(c);
            proof {
                if run.len() == 0 {
                    assert(current@ =~= seq![c]);
                } else {
                    assert(before.push(run).drop_last() =~= before);
                }
            }
        }
        i += 1;
    }
    assert(s@.take(i as int) =~= s@);
    if current.len() > 0 {
        let ghost before = views(out@);
        let ghost run = current@;
        out.push(current);
        assert(views(out@) =~= before.push(run));
    }
    out
}

/// The lines of a text.
pub fn lines_of(s: &Vec<char>) -> (r: Vec<Vec<char>>)
    ensures
        views(r@) == lines(s@),
{
    let mut out: Vec<Vec<char>> = Vec::new();
    let mut current: Vec<char> = Vec::new();
    let ghost mut raw = Seq::<Seq<char>>::empty();
    let mut i: usize = 0;
    let ghost cut = |line: Seq<char>| chomp(line);
    assert(raw =~= raw_lines(s@.take(0)));
    assert(views(out@) =~= raw.map_values(cut));
    while i < s.len()
        invariant
            i <= s.len(),
            cut == (|line: Seq<char>| chomp(line)),
            current@.len() > 0 <==> i > 0 && s@[i - 1] != '\n',
            forall|j: int| 0 <= j < current@.len() ==> #[trigger] current@[j] != '\n',
            views(out@) == raw.map_values(cut),
            raw_lines(s@.take(i as int)) == if current@.len() == 0 {
                raw
            } else {
                raw.push(current@)
            },
        decreases s.len() - i,
    {
        let c: char = s[i];
        let ghost before = views(out@);
        let ghost run = current@;
        proof {
            assert(s@.take(i + 1).drop_last() =~= s@.take(i as int));
            if run.len() == 0 {
                assert(run.push(c) =~= seq![c]);
            } else {
                assert(raw.push(run).drop_last() =~= raw);
            }
            assert(raw_lines(s@.take(i + 1)) == raw.push(run.push(c)));
        }
        if c == '\n' {
            let ghost line = run.push(c);
            if current.len() > 0 && current[current.len() - 1] == '\r' {
                current.pop();
                assert(current@ =~= chomp(line));
            } else {
                assert(current@ =~= chomp(line));
            }
            out.push(current);
            current = Vec::new();
            proof {
                assert(views(out@) =~= before.push(chomp(line)));
                assert(raw.push(line).map_values(cut) =~= raw.map_values(cut).push(chomp(line)));
                raw = raw.push(line);
            }
        } else {
            current.push(c);
        }
        i += 1;
    }
    assert(s@.take(i as int) =~= s@);
    if current.len() > 0 {
        let ghost before = views(out@);
        let ghost run = current@;
        out.push(current);
        proof {
            assert(run.last() != '\n');
            assert(views(out@) =~= before.push(run));
            assert(raw.push(run).map_values(cut) =~= raw.map_values(cut).push(run));
        }
    }
    out
}

/// The parts of a text between the occurrences of `sep`.
pub fn split_at(s: &Vec<char>, sep: char) -> (r: Vec<Vec<char>>)
    ensures
        views(r@) == split(s@, sep),
{
    let mut out: Vec<Vec<char>> = Vec::new();
    let mut current: Vec<char> = Vec::new();
    let mut i: usize = 0;
    assert(split(s@.take(0), sep) =~= seq![Seq::<char>::empty()]);
    assert(current@ =~= Seq::<char>::empty());
    assert(views(out@).push(current@) =~= seq![Seq::<char>::empty()]);
    while i < s.len()
        invariant
            i <= s.len(),
            split(s@.take(i as int), sep) == views(out@).push(current@),
        decreases s.len() - i,
    {
        let c: char = s[i];
        let ghost before = views(out@);
        let ghost run = current@;
        assert(s@.take(i + 1).drop_last() =~= s@.take(i as int));
        assert(before.push(run).drop_last() =~= before);
        if c == sep {
            out.push(current);
            current = Vec::new();
            assert(current@ =~= Seq::<char>::empty());
            assert(views(out@) =~= before.push(run));
        } else {
            current.push(c);
        }
        i += 1;
    }
    assert(s@.take(i as int) =~= s@);
    let ghost before = views(out@);
    let ghost run = current@;
    out.push(current);
    assert(views(out@) =~= before.push(run));
    out
}

/// The texts one after the other, with `sep` between them.
pub fn joined(texts: &Vec<String>, sep: &str) -> (r: String)
    ensures
        r@ == join(string_views(texts@), sep@),
{
    let mut out: String = String::new();
    let mut i: usize = 0;
    let ghost all = string_views(texts@);
    assert(out@ =~= join(all.take(0), sep@));
    while i < texts.len()
        invariant
            i <= texts.len(),
            all == string_views(texts@),
            out@ == join(all.take(i as int), sep@),
        decreases texts.len() - i,
    {
        assert(all.take(i + 1).drop_last() =~= all.take(i as int));
        if i > 0 {
            out.append(sep);
        }
        out.append(texts[i].as_str());
        assert(out@ =~= join(all.take(i + 1), sep@));
        i += 1;
    }
    assert(all.take(i as int) =~= all);
    out
}

/// A sequence of strings, as a sequence of character sequences.
pub open spec fn string_views(texts: Seq<String>) -> Seq<Seq<char>> {
    Seq::new(texts.len(), |i: int| texts[i]@)
}

/// The number that a text writes, if it writes one of at most `most`.
pub fn parse_number(s: &Vec<char>, most: u64) -> (r: Option<u64>)
    requires
        most >= 9,
    ensures
        r is Some <==> number_upto(s@, most as nat) is Some,
        r matches Some(n) ==> number_upto(s@, most as nat) == Some(n as nat),
{
    let start: usize = if s.len() > 0 && s[0] == '+' {
        1
    } else {
        0
    };
    let ghost digits = s@.skip(start as int);
    assert(s@.skip(0) =~= s@);
    if s.len() == start {
        return None;
    }
    let mut n: u64 = 0;
    let mut over: bool = false;
    let mut i: usize = start;
    while i < s.len()
        invariant
            start <= i <= s.len(),
            start == if s@.len() > 0 && s@[0] == '+' {
                1int
            } else {
                0
            },
            s@.skip(0) == s@,
            most >= 9,
            digits == s@.skip(start as int),
            all_digits(digits.take(i - start)),
            over ==> value(digits.take(i - start)) > most,
            !over ==> n == value(digits.take(i - start)) && n <= most,
        decreases s.len() - i,
    {
        let c: char = s[i];
        assert(digits[i - start] == c);
        if !('0' <= c && c <= '9') {
            assert(!all_digits(digits));
            return None;
        }
        let d: u64 = (c as u32 - '0' as u32) as u64;
        proof {
            assert(digits.take(i + 1 - start).drop_last() =~= digits.take(i - start));
            assert(digits.take(i + 1 - start).last() == c);
            let so_far = value(digits.take(i - start));
            assert(value(digits.take(i + 1 - start)) == so_far * 10 + d);
            assert(all_digits(digits.take(i + 1 - start))) by {
                assert forall|j: int| 0 <= j < i + 1 - start implies is_digit(
                    #[trigger] digits.take(i + 1 - start)[j],
                ) by {
                    if j < i - start {
                        assert(digits.take(i - start)[j] == digits[j]);
                    }
                }
            }
        }
        if !over {
            if n > (most - d) / 10 {
                over = true;
            } else {
                n = n * 10 + d;
            }
        }
        i += 1;
    }
    assert(digits.take(i - start) =~= digits);
    if over {
        None
    } else {
        Some(n)
    }
}

fn digit_char(d: u64) -> (c: char)
    requires
        d < 10,
    ensures
        c == digit(d as nat),
{
    ((d as u8) + 48) as char
}

/// Adds a number in decimal digits to the end of a text.
pub fn push_number(out: &mut String, n: u64)
    ensures
        final(out)@ == old(out)@ + decimal(n as nat),
    decreases n,
{
    if n < 10 {
        out.push(digit_char(n));
        assert(out@ =~= old(out)@ + decimal(n as nat));
    } else {
        push_number(out, n / 10);
        out.push(digit_char(n % 10));
        assert(out@ =~= old(out)@ + decimal(n as nat));
    }
}

/// A number in decimal digits.
pub fn number_text(n: u64) -> (r: String)
    ensures
        r@ == decimal(n as nat),
{
    let mut out: String = String::new();
    push_number(&mut out, n);
    assert(out@ =~= decimal(n as nat));
    out
}

/// Writing a number and reading it back gives the number.
pub proof fn law_number_round_trip(n: nat)
    ensures
        number(decimal(n)) == Some(n),
{
    lemma_decimal(n);
}

pub proof fn lemma_decimal(n: nat)
    ensures
        decimal(n).len() > 0,
        all_digits(decimal(n)),
        value(decimal(n)) == n,
    decreases n,
{
    if n < 10 {
        let s = decimal(n);
        assert(s.drop_last() =~= Seq::<char>::empty());
        assert(value(s.drop_last()) == 0);
        assert(s.last() as nat - '0' as nat == n);
    } else {
        lemma_decimal(n / 10);
        let s = decimal(n);
        assert(s.drop_last() =~= decimal(n / 10));
        assert(s.last() as nat - '0' as nat == n % 10);
    }
}

/// Is this a line that can be written and read back: one without a line feed in
/// it, or a carriage return at its end?
pub open spec fn is_line(s: Seq<char>) -> bool {
    &&& forall|i: int| 0 <= i < s.len() ==> #[trigger] s[i] != '\n'
    &&& s.len() > 0 ==> s.last() != '\r'
}

/// Reading on from the start of a line: until its line feed is reached, the line
/// is the last of the lines read.
proof fn lemma_raw_line(s: Seq<char>, line: Seq<char>)
    requires
        s.len() > 0 ==> s.last() == '\n',
        forall|i: int| 0 <= i < line.len() ==> #[trigger] line[i] != '\n',
        line.len() > 0,
    ensures
        raw_lines(s + line) == raw_lines(s).push(line),
    decreases line.len(),
{
    let all = s + line;
    assert(all.last() == line.last());
    if line.len() == 1 {
        assert(all.drop_last() =~= s);
        assert(line =~= seq![line.last()]);
        if s.len() > 0 {
            assert(all[all.len() - 2] == s.last());
        }
    } else {
        let less = line.drop_last();
        assert(all.drop_last() =~= s + less);
        assert(all[all.len() - 2] == line[line.len() - 2]);
        lemma_raw_line(s, less);
        assert(raw_lines(s).push(less).drop_last() =~= raw_lines(s));
        assert(less.push(line.last()) =~= line);
    }
}

/// Lines that are written out and read back come back as they were.
pub proof fn law_lines_round_trip(all: Seq<Seq<char>>)
    requires
        forall|i: int| 0 <= i < all.len() ==> is_line(#[trigger] all[i]),
    ensures
        lines(unlines(all)) == all,
        all.len() > 0 ==> unlines(all).len() > 0 && unlines(all).last() == '\n',
    decreases all.len(),
{
    let cut = |line: Seq<char>| chomp(line);
    if all.len() == 0 {
        assert(lines(unlines(all)) =~= all);
    } else {
        let before = all.drop_last();
        let line = all.last();
        assert forall|i: int| 0 <= i < before.len() implies is_line(#[trigger] before[i]) by {
            assert(before[i] == all[i]);
        }
        law_lines_round_trip(before);
        let s = unlines(before);
        let text = unlines(all);
        assert(is_line(all[all.len() - 1]));
        assert(text =~= (s + line).push('\n'));
        assert(text.drop_last() =~= s + line);
        let raw = raw_lines(s).push(line.push('\n'));
        if line.len() == 0 {
            assert(s + line =~= s);
            assert(line.push('\n') =~= seq!['\n']);
            if s.len() > 0 {
                assert(text[text.len() - 2] == s.last());
            }
        } else {
            lemma_raw_line(s, line);
            assert(text[text.len() - 2] == line.last());
            assert(raw_lines(s).push(line).drop_last() =~= raw_lines(s));
        }
        assert(raw_lines(text) == raw);
        assert(chomp(line.push('\n')) =~= line);
        assert(raw.map_values(cut) =~= raw_lines(s).map_values(cut).push(line));
        assert(before.push(line) =~= all);
    }
}

/// Splitting a text gives at least one part.
pub proof fn lemma_split_nonempty(s: Seq<char>, sep: char)
    ensures
        split(s, sep).len() > 0,
    decreases s.len(),
{
    if s.len() > 0 {
        lemma_split_nonempty(s.drop_last(), sep);
    }
}

/// Text with no white space at either end is left alone by trimming.
pub proof fn lemma_trim_inked(s: Seq<char>)
    requires
        s.len() > 0 ==> !is_white(s[0]) && !is_white(s.last()),
    ensures
        trim(s) == s,
{
}

pub proof fn lemma_place_of(s: Seq<char>, pat: Seq<char>, from: int)
    requires
        0 <= from,
    ensures
        place_of(s, pat, from) matches Some(i) ==> from <= i && i + pat.len() <= s.len(),
    decreases s.len() + 1 - from,
{
    if from + pat.len() <= s.len() && s.subrange(from, from + pat.len()) != pat {
        lemma_place_of(s, pat, from + 1);
    }
}

/// The first place from `from` on where `pat` occurs in the characters.
fn find(s: &Vec<char>, pat: &Vec<char>, from: usize) -> (r: Option<usize>)
    requires
        from <= s.len(),
    ensures
        match r {
            Some(i) => place_of(s@, pat@, from as int) == Some(i as int),
            None => place_of(s@, pat@, from as int) is None,
        },
{
    let mut i: usize = from;
    while i < s.len() && pat.len() <= s.len() - i
        invariant
            from <= i <= s.len(),
            place_of(s@, pat@, from as int) == place_of(s@, pat@, i as int),
        decreases s.len() - i,
    {
        if equal(&slice(s, i, i + pat.len()), pat) {
            return Some(i);
        }
        i += 1;
    }
    if i == s.len() && pat.len() == 0 {
        assert(s@.subrange(i as int, i as int) =~= pat@);
        return Some(i);
    }
    None
}

/// The parts of a text between the occurrences of another.
pub fn split_text(s: &Vec<char>, pat: &str) -> (r: Vec<Vec<char>>)
    requires
        pat@.len() > 0,
    ensures
        views(r@) == pieces(s@, pat@, 0),
{
    let mark: Vec<char> = chars_of(pat);
    let mut out: Vec<Vec<char>> = Vec::new();
    let mut from: usize = 0;
    assert(views(out@) + pieces(s@, pat@, 0) =~= pieces(s@, pat@, 0));
    loop
        invariant
            from <= s.len(),
            mark@ == pat@,
            pat@.len() > 0,
            pieces(s@, pat@, 0) == views(out@) + pieces(s@, pat@, from as int),
        decreases s.len() - from,
    {
        let ghost before = views(out@);
        proof {
            lemma_place_of(s@, pat@, from as int);
        }
        match find(s, &mark, from) {
            None => {
                let rest: Vec<char> = slice(s, from, s.len());
                let ghost last = rest@;
                out.push(rest);
                assert(pieces(s@, pat@, from as int) =~= seq![last]);
                assert(views(out@) =~= before + seq![last]);
                return out;
            },
            Some(i) => {
                let part: Vec<char> = slice(s, from, i);
                let ghost piece = part@;
                out.push(part);
                from = i + mark.len();
                proof {
                    assert(views(out@) =~= before.push(piece));
                    assert(before + (seq![piece] + pieces(s@, pat@, from as int)) =~= before.push(
                        piece,
                    ) + pieces(s@, pat@, from as int));
                }
            },
        }
    }
}

/// There are no more words than characters.
pub proof fn lemma_words_few(s: Seq<char>)
    ensures
        words(s).len() <= s.len(),
    decreases s.len(),
{
    if s.len() > 0 {
        lemma_words_few(s.drop_last());
        if s.len() > 1 && !is_white(s.last()) && !is_white(s[s.len() - 2]) {
            lemma_last_word(s.drop_last());
        }
    }
}

proof fn lemma_last_word(s: Seq<char>)
    requires
        s.len() > 0,
        !is_white(s.last()),
    ensures
        words(s).len() > 0,
    decreases s.len(),
{
    if s.len() > 1 && !is_white(s[s.len() - 2]) {
        lemma_last_word(s.drop_last());
    }
}

/// Is this a word: some characters, none of them white space?
pub open spec fn is_word(s: Seq<char>) -> bool {
    &&& s.len() > 0
    &&& forall|i: int| 0 <= i < s.len() ==> !is_white(#[trigger] s[i])
}

/// A word that stands at the start of a text, or after white space, is the last of
/// the words up to its end.
pub proof fn lemma_words_push(s: Seq<char>, word: Seq<char>)
    requires
        s.len() > 0 ==> is_white(s.last()),
        is_word(word),
    ensures
        words(s + word) == words(s).push(word),
    decreases word.len(),
{
    let all = s + word;
    assert(all.last() == word[word.len() - 1]);
    if word.len() == 1 {
        assert(all.drop_last() =~= s);
        assert(word =~= seq![all.last()]);
        if s.len() > 0 {
            assert(all[all.len() - 2] == s.last());
        }
    } else {
        let less = word.drop_last();
        assert(all.drop_last() =~= s + less);
        assert(all[all.len() - 2] == word[word.len() - 2]);
        assert(is_word(less)) by {
            assert forall|i: int| 0 <= i < less.len() implies !is_white(#[trigger] less[i]) by {
                assert(less[i] == word[i]);
            }
        }
        lemma_words_push(s, less);
        assert(words(s).push(less).drop_last() =~= words(s));
        assert(less.push(word.last()) =~= word);
    }
}

/// Words joined by spaces come apart into the same words.
pub proof fn law_words_round_trip(all: Seq<Seq<char>>)
    requires
        forall|i: int| 0 <= i < all.len() ==> is_word(#[trigger] all[i]),
    ensures
        words(join(all, " "@)) == all,
    decreases all.len(),
{
    reveal_strlit(" ");
    if all.len() == 0 {
        assert(words(join(all, " "@)) =~= all);
    } else {
        let less = all.drop_last();
        let word = all.last();
        assert(is_word(all[all.len() - 1]));
        assert forall|i: int| 0 <= i < less.len() implies is_word(#[trigger] less[i]) by {
            assert(less[i] == all[i]);
        }
        law_words_round_trip(less);
        if all.len() == 1 {
            assert(Seq::<char>::empty() + word =~= word);
            assert(words(Seq::<char>::empty()) =~= Seq::<Seq<char>>::empty());
            lemma_words_push(Seq::empty(), word);
            assert(Seq::<Seq<char>>::empty().push(word) =~= all);
        } else {
            let head = join(less, " "@) + " "@;
            assert(head.drop_last() =~= join(less, " "@));
            assert(head.last() == ' ');
            assert(words(head) == words(join(less, " "@)));
            lemma_words_push(head, word);
            assert(less.push(word) =~= all);
        }
    }
}

/// A run of blanks.
pub open spec fn blanks(n: nat) -> Seq<char> {
    Seq::new(n, |i: int| ' ')
}

/// The text set flush left in a field of this width.
pub open spec fn flush_left(s: Seq<char>, width: nat) -> Seq<char> {
    if s.len() < width {
        s + blanks((width - s.len()) as nat)
    } else {
        s
    }
}

/// The text set flush right in a field of this width.
pub open spec fn flush_right(s: Seq<char>, width: nat) -> Seq<char> {
    if s.len() < width {
        blanks((width - s.len()) as nat) + s
    } else {
        s
    }
}

fn push_blanks(out: &mut String, n: usize)
    ensures
        final(out)@ == old(out)@ + blanks(n as nat),
{
    let mut i: usize = 0;
    while i < n
        invariant
            i <= n,
            out@ =~= old(out)@ + blanks(i as nat),
        decreases n - i,
    {
        out.push(' ');
        i += 1;
    }
}

/// Appends the text, set flush left in a field of this width.
pub fn push_left(out: &mut String, s: &str, width: usize)
    ensures
        final(out)@ == old(out)@ + flush_left(s@, width as nat),
{
    let n: usize = chars_of(s).len();
    out.append(s);
    if n < width {
        push_blanks(out, width - n);
    }
    assert(out@ =~= old(out)@ + flush_left(s@, width as nat));
}

/// Appends the text, set flush right in a field of this width.
pub fn push_right(out: &mut String, s: &str, width: usize)
    ensures
        final(out)@ == old(out)@ + flush_right(s@, width as nat),
{
    let n: usize = chars_of(s).len();
    if n < width {
        push_blanks(out, width - n);
    }
    out.append(s);
    assert(out@ =~= old(out)@ + flush_right(s@, width as nat));
}

/// Taking a text apart at another loses nothing: the pieces, with that other text put
/// back between them, are the text again.
pub proof fn law_pieces_make_up_the_text(s: Seq<char>, pat: Seq<char>, from: int)
    requires
        pat.len() > 0,
        0 <= from <= s.len(),
    ensures
        pieces(s, pat, from).len() > 0,
        join(pieces(s, pat, from), pat) == s.subrange(from, s.len() as int),
    decreases s.len() - from,
{
    lemma_place_of(s, pat, from);
    lemma_place_is_there(s, pat, from);
    let all = pieces(s, pat, from);
    if let Some(i) = place_of(s, pat, from) {
        let next = (i + pat.len()) as int;
        law_pieces_make_up_the_text(s, pat, next);
        let first = s.subrange(from, i);
        lemma_join_first(first, pieces(s, pat, next), pat);
        assert(s.subrange(from, s.len() as int) =~= first + pat + s.subrange(next, s.len() as int));
    }
}

proof fn lemma_place_is_there(s: Seq<char>, pat: Seq<char>, from: int)
    requires
        0 <= from,
    ensures
        place_of(s, pat, from) matches Some(i) ==> s.subrange(i, i + pat.len()) == pat,
    decreases s.len() + 1 - from,
{
    if from + pat.len() <= s.len() && s.subrange(from, from + pat.len()) != pat {
        lemma_place_is_there(s, pat, from + 1);
    }
}

proof fn lemma_join_first(first: Seq<char>, rest: Seq<Seq<char>>, sep: Seq<char>)
    requires
        rest.len() > 0,
    ensures
        join(seq![first] + rest, sep) == first + sep + join(rest, sep),
    decreases rest.len(),
{
    let all = seq![first] + rest;
    let less = rest.drop_last();
    assert(all.drop_last() =~= seq![first] + less);
    assert(all.last() == rest.last());
    if less.len() > 0 {
        lemma_join_first(first, less, sep);
        assert(join(all, sep) =~= first + sep + join(rest, sep));
    } else {
        assert(seq![first] + less =~= seq![first]);
        assert(join(seq![first], sep) == first);
        assert(join(rest, sep) == rest.last());
        assert(join(all, sep) =~= first + sep + join(rest, sep));
    }
}

/// The words of a text are made of what is not white space, and none of them is empty.
pub proof fn law_words_hold_no_white_space(s: Seq<char>)
    ensures
        forall|i: int| 0 <= i < words(s).len() ==> is_word(#[trigger] words(s)[i]),
        s.len() > 0 && !is_white(s.last()) ==> words(s).len() > 0,
    decreases s.len(),
{
    if s.len() > 0 {
        let less = s.drop_last();
        law_words_hold_no_white_space(less);
        let all = words(s);
        let before = words(less);
        if !is_white(s.last()) {
            assert forall|i: int| 0 <= i < all.len() implies is_word(#[trigger] all[i]) by {
                if s.len() == 1 || is_white(s[s.len() - 2]) {
                    if i < before.len() {
                        assert(all[i] == before[i]);
                    }
                } else {
                    assert(less.last() == s[s.len() - 2]);
                    if i < before.len() - 1 {
                        assert(all[i] == before[i]);
                    } else {
                        assert(is_word(before[before.len() - 1]));
                        assert(all[i] == before.last().push(s.last()));
                    }
                }
            }
        }
    }
}

/// A text in a field keeps its characters and is as wide as the field, or wider only
/// where it has more characters; flush left it starts the field, flush right it ends it.
pub proof fn law_fields_are_filled_with_blanks(s: Seq<char>, width: nat)
    ensures
        flush_left(s, width).len() == if s.len() < width {
            width
        } else {
            s.len()
        },
        flush_right(s, width).len() == flush_left(s, width).len(),
        flush_left(s, width).take(s.len() as int) == s,
        flush_right(s, width).skip(flush_right(s, width).len() - s.len()) == s,
        forall|i: int|
            s.len() <= i < flush_left(s, width).len() ==> #[trigger] flush_left(s, width)[i] == ' ',
        forall|i: int|
            0 <= i < flush_right(s, width).len() - s.len() ==> #[trigger] flush_right(s, width)[i]
                == ' ',
{
    let n = (width - s.len()) as nat;
    if s.len() < width {
        lemma_blanks(n);
    }
    assert(flush_left(s, width).take(s.len() as int) =~= s);
    assert(flush_right(s, width).skip(flush_right(s, width).len() - s.len()) =~= s);
}

proof fn lemma_blanks(n: nat)
    ensures
        blanks(n).len() == n,
        forall|i: int| 0 <= i < n ==> #[trigger] blanks(n)[i] == ' ',
{
}

/// A number is read digit by digit, and from nothing but digits: one more digit makes it
/// ten times what it was and that digit more. A plus sign before it changes nothing.
pub proof fn law_numbers_are_read_digit_by_digit(s: Seq<char>, c: char)
    ensures
        number(Seq::empty()) is None,
        number(seq![c]) is Some <==> '0' <= c <= '9',
        '0' <= c <= '9' ==> number(seq![c]) == Some((c as nat - '0' as nat) as nat),
        s.len() > 0 && s != seq!['+'] ==> (number(s.push(c)) is Some <==> number(s) is Some && '0' <= c
            <= '9'),
        s.len() > 0 && s != seq!['+'] && number(s.push(c)) is Some ==> number(s.push(c)) == Some(
            (number(s)->0 * 10 + (c as nat - '0' as nat)) as nat,
        ),
        s.len() > 0 && s[0] != '+' ==> number(seq!['+'] + s) == number(s),
{
    let one = seq![c];
    assert(one.drop_last() =~= Seq::<char>::empty());
    assert(value(one.drop_last()) == 0);
    if c == '+' {
        assert(one.skip(1) =~= Seq::<char>::empty());
    } else {
        assert(one[0] == c);
    }
    let more = s.push(c);
    if s.len() > 0 && s != seq!['+'] {
        let d = if s[0] == '+' {
            s.skip(1)
        } else {
            s
        };
        if s[0] == '+' && s.len() == 1 {
            assert(s =~= seq!['+']);
        }
        assert(d.len() > 0);
        let e = d.push(c);
        assert(e.drop_last() =~= d);
        if s[0] == '+' {
            assert(more.skip(1) =~= e);
        }
        assert(all_digits(e) <==> all_digits(d) && is_digit(c)) by {
            if all_digits(e) {
                assert forall|i: int| 0 <= i < d.len() implies is_digit(#[trigger] d[i]) by {
                    assert(e[i] == d[i]);
                }
                assert(e[d.len() as int] == c);
            }
            if all_digits(d) && is_digit(c) {
                assert forall|i: int| 0 <= i < e.len() implies is_digit(#[trigger] e[i]) by {
                    if i < d.len() {
                        assert(e[i] == d[i]);
                    }
                }
            }
        }
    }
    if s.len() > 0 && s[0] != '+' {
        assert((seq!['+'] + s).skip(1) =~= s);
    }
}

/// Trimming takes white space from both ends of a text and nothing else.
pub proof fn law_trimming_takes_white_space_off_the_ends(s: Seq<char>)
    ensures
        ({
            let t = trim(s);
            &&& t.len() > 0 ==> !is_white(t[0]) && !is_white(t.last())
            &&& exists|i: int, j: int| #[trigger] trims_to(s, t, i, j)
        }),
{
    let mid = trim_start(s);
    lemma_start_off(s);
    lemma_end_off(mid);
    let i = s.len() - mid.len();
    let t = trim(s);
    let j = i + t.len();
    assert(mid == s.skip(i));
    assert(t == mid.take(t.len() as int));
    assert(t =~= s.subrange(i, j));
    assert forall|k: int| j <= k < s.len() implies is_white(#[trigger] s[k]) by {
        assert(mid[k - i] == s[k]);
    }
    assert(trims_to(s, t, i, j));
    if t.len() > 0 {
        assert(t[0] == mid[0]);
    }
}

/// Is `t` what stands between the places `i` and `j` of `s`, and is there nothing but
/// white space around it?
pub open spec fn trims_to(s: Seq<char>, t: Seq<char>, i: int, j: int) -> bool {
    &&& 0 <= i <= j <= s.len()
    &&& t == s.subrange(i, j)
    &&& forall|k: int| 0 <= k < i ==> is_white(#[trigger] s[k])
    &&& forall|k: int| j <= k < s.len() ==> is_white(#[trigger] s[k])
}

proof fn lemma_start_off(s: Seq<char>)
    ensures
        trim_start(s).len() <= s.len(),
        trim_start(s) == s.skip(s.len() - trim_start(s).len()),
        trim_start(s).len() > 0 ==> !is_white(trim_start(s)[0]),
        forall|k: int| 0 <= k < s.len() - trim_start(s).len() ==> is_white(#[trigger] s[k]),
    decreases s.len(),
{
    if s.len() > 0 && is_white(s[0]) {
        let rest = s.skip(1);
        lemma_start_off(rest);
        let t = trim_start(s);
        assert(t == trim_start(rest));
        assert(s.skip(s.len() - t.len()) =~= rest.skip(rest.len() - t.len()));
        assert forall|k: int| 0 <= k < s.len() - t.len() implies is_white(#[trigger] s[k]) by {
            if k > 0 {
                assert(rest[k - 1] == s[k]);
            }
        }
    } else {
        assert(s.skip(0) =~= s);
    }
}

proof fn lemma_end_off(s: Seq<char>)
    ensures
        trim_end(s).len() <= s.len(),
        trim_end(s) == s.take(trim_end(s).len() as int),
        trim_end(s).len() > 0 ==> !is_white(trim_end(s).last()),
        forall|k: int| trim_end(s).len() <= k < s.len() ==> is_white(#[trigger] s[k]),
    decreases s.len(),
{
    if s.len() > 0 && is_white(s.last()) {
        let less = s.drop_last();
        lemma_end_off(less);
        let t = trim_end(s);
        assert(s.take(t.len() as int) =~= less.take(t.len() as int));
        assert forall|k: int| t.len() <= k < s.len() implies is_white(#[trigger] s[k]) by {
            if k < less.len() {
                assert(less[k] == s[k]);
            }
        }
    } else {
        assert(s.take(s.len() as int) =~= s);
    }
}

} // verus!
