//! Reading puzzle text: lines, words, separated fields and decimal numbers,
//! over sequences of characters.
use vstd::prelude::*;
use vstd::string::StrSliceExecFns;

verus! {

/// The pieces of `s` between occurrences of `sep`, in order; `n`
/// separators give `n + 1` pieces, some of them possibly empty.
pub open spec fn split_pieces(s: Seq<char>, sep: char) -> Seq<Seq<char>>
    decreases s.len(),
{
    if s.len() == 0 {
        seq![Seq::empty()]
    } else {
        let before = split_pieces(s.drop_last(), sep);
        if s.last() == sep {
            before.push(Seq::empty())
        } else {
            before.update(before.len() - 1, before.last().push(s.last()))
        }
    }
}

/// White space: the characters with the Unicode `White_Space` property.
pub open spec fn is_space(c: char) -> bool {
    ('\u{9}' <= c && c <= '\u{d}') || c == ' ' || c == '\u{85}' || c == '\u{a0}' || c
        == '\u{1680}' || ('\u{2000}' <= c && c <= '\u{200a}') || c == '\u{2028}' || c
        == '\u{2029}' || c == '\u{202f}' || c == '\u{205f}' || c == '\u{3000}'
}

/// The pieces of `s` between white space characters, empty ones included.
pub open spec fn space_pieces(s: Seq<char>) -> Seq<Seq<char>>
    decreases s.len(),
{
    if s.len() == 0 {
        seq![Seq::empty()]
    } else {
        let before = space_pieces(s.drop_last());
        if is_space(s.last()) {
            before.push(Seq::empty())
        } else {
            before.update(before.len() - 1, before.last().push(s.last()))
        }
    }
}

/// The maximal runs of non-space characters of `s`, in order.
pub open spec fn words(s: Seq<char>) -> Seq<Seq<char>> {
    space_pieces(s).filter(|p: Seq<char>| p.len() > 0)
}

/// `s` without one trailing carriage return.
pub open spec fn strip_cr(s: Seq<char>) -> Seq<char> {
    if s.len() > 0 && s.last() == '\r' {
        s.drop_last()
    } else {
        s
    }
}

/// The lines of `s`: the pieces between newlines, where a line ended by a
/// newline loses one carriage return before it, and text that ends in a
/// newline (or is empty) has no empty last line.
pub open spec fn lines(s: Seq<char>) -> Seq<Seq<char>> {
    let p = split_pieces(s, '\n');
    let ended = p.drop_last().map_values(|l: Seq<char>| strip_cr(l));
    if p.last().len() == 0 {
        ended
    } else {
        ended.push(p.last())
    }
}

/// The value of a sequence of decimal digits.
pub open spec fn digits_value(s: Seq<char>) -> nat
    decreases s.len(),
{
    if s.len() == 0 {
        0
    } else {
        digits_value(s.drop_last()) * 10 + (s.last() as nat - '0' as nat) as nat
    }
}

pub open spec fn is_digit(c: char) -> bool {
    '0' <= c && c <= '9'
}

/// `s` without one leading `+`.
pub open spec fn unsigned_part(s: Seq<char>) -> Seq<char> {
    if s.len() > 0 && s[0] == '+' {
        s.drop_first()
    } else {
        s
    }
}

/// `s` read as an unsigned decimal number that fits in `u64`: an optional
/// `+` and then one or more digits.
pub open spec fn decimal_value(s: Seq<char>) -> Option<nat> {
    let body = unsigned_part(s);
    if body.len() > 0 && (forall|i: int| 0 <= i < body.len() ==> is_digit(#[trigger] body[i]))
        && digits_value(body) <= u64::MAX {
        Some(digits_value(body))
    } else {
        None
    }
}

/// The characters of `s`.
pub fn chars_of(s: &str) -> (r: Vec<char>)
    ensures
        r@ == s@,
{
    let n = s.unicode_len();
    let mut out: Vec<char> = Vec::new();
    let mut i: usize = 0;
    while i < n
        invariant
            i <= n,
            n == s@.len(),
            out@ == s@.subrange(0, i as int),
        decreases n - i,
    {
        out.push(s.get_char(i));
        i = i + 1;
        proof {
            assert(out@ =~= s@.subrange(0, i as int));
        }
    }
    proof {
        assert(s@ =~= s@.subrange(0, n as int));
    }
    out
}

/// The pieces of `s` between occurrences of `sep`.
pub fn split_on(s: &[char], sep: char) -> (r: Vec<Vec<char>>)
    ensures
        r@.map_values(|p: Vec<char>| p@) == split_pieces(s@, sep),
{
    let mut done: Vec<Vec<char>> = Vec::new();
    let mut current: Vec<char> = Vec::new();
    let mut i: usize = 0;
    while i < s.len()
        invariant
            i <= s@.len(),
            done@.map_values(|p: Vec<char>| p@).push(current@) == split_pieces(
                s@.subrange(0, i as int),
                sep,
            ),
        decreases s.len() - i,
    {
        proof {
            assert(s@.subrange(0, i + 1).drop_last() =~= s@.subrange(0, i as int));
        }
        let c = s[i];
        if c == sep {
            let piece = current;
            current = Vec::new();
            done.push(piece);
            proof {
                assert(done@.map_values(|p: Vec<char>| p@).push(current@) =~= split_pieces(
                    s@.subrange(0, i + 1),
                    sep,
                ));
            }
        } else {
            let ghost before = done@.map_values(|p: Vec<char>| p@).push(current@);
            current.push(c);
            proof {
                assert(done@.map_values(|p: Vec<char>| p@).push(current@) =~= before.update(
                    before.len() - 1,
                    before.last().push(c),
                ));
            }
        }
        i = i + 1;
    }
    done.push(current);
    proof {
        assert(s@.subrange(0, s@.len() as int) =~= s@);
    }
    done
}

fn is_space_char(c: char) -> (r: bool)
    ensures
        r == is_space(c),
{
    ('\u{9}' <= c && c <= '\u{d}') || c == ' ' || c == '\u{85}' || c == '\u{a0}' || c
        == '\u{1680}' || ('\u{2000}' <= c && c <= '\u{200a}') || c == '\u{2028}' || c
        == '\u{2029}' || c == '\u{202f}' || c == '\u{205f}' || c == '\u{3000}'
}

/// The pieces of `s` between white space characters.
fn split_on_space(s: &[char]) -> (r: Vec<Vec<char>>)
    ensures
        r@.map_values(|p: Vec<char>| p@) == space_pieces(s@),
{
    let mut done: Vec<Vec<char>> = Vec::new();
    let mut current: Vec<char> = Vec::new();
    let mut i: usize = 0;
    while i < s.len()
        invariant
            i <= s@.len(),
            done@.map_values(|p: Vec<char>| p@).push(current@) == space_pieces(
                s@.subrange(0, i as int),
            ),
        decreases s.len() - i,
    {
        proof {
            assert(s@.subrange(0, i + 1).drop_last() =~= s@.subrange(0, i as int));
        }
        let c = s[i];
        if is_space_char(c) {
            let piece = current;
            current = Vec::new();
            done.push(piece);
            proof {
                assert(done@.map_values(|p: Vec<char>| p@).push(current@) =~= space_pieces(
                    s@.subrange(0, i + 1),
                ));
            }
        } else {
            let ghost before = done@.map_values(|p: Vec<char>| p@).push(current@);
            current.push(c);
            proof {
                assert(done@.map_values(|p: Vec<char>| p@).push(current@) =~= before.update(
                    before.len() - 1,
                    before.last().push(c),
                ));
            }
        }
        i = i + 1;
    }
    done.push(current);
    proof {
        assert(s@.subrange(0, s@.len() as int) =~= s@);
    }
    done
}

/// The words of `s`: its maximal runs of non-space characters.
pub fn split_words(s: &[char]) -> (r: Vec<Vec<char>>)
    ensures
        r@.map_values(|p: Vec<char>| p@) == words(s@),
{
    let pieces = split_on_space(s);
    let ghost views = pieces@.map_values(|p: Vec<char>| p@);
    let ghost pred = |p: Seq<char>| p.len() > 0;
    let mut out: Vec<Vec<char>> = Vec::new();
    let mut i: usize = 0;
    while i < pieces.len()
        invariant
            i <= pieces@.len(),
            views == pieces@.map_values(|p: Vec<char>| p@),
            pred == (|p: Seq<char>| p.len() > 0),
            out@.map_values(|p: Vec<char>| p@) == views.subrange(0, i as int).filter(pred),
        decreases pieces.len() - i,
    {
        proof {
            reveal(Seq::filter);
            assert(views.subrange(0, i + 1).drop_last() =~= views.subrange(0, i as int));
        }
        if pieces[i].len() > 0 {
            let ghost before = out@.map_values(|p: Vec<char>| p@);
            out.push(pieces[i].clone());
            proof {
                assert(out@.map_values(|p: Vec<char>| p@) =~= before.push(views[i as int]));
            }
        }
        i = i + 1;
    }
    proof {
        assert(views.subrange(0, pieces@.len() as int) =~= views);
    }
    out
}

/// The lines of `s`.
pub fn split_lines(s: &[char]) -> (r: Vec<Vec<char>>)
    ensures
        r@.map_values(|p: Vec<char>| p@) == lines(s@),
{
    let mut pieces = split_on(s, '\n');
    let ghost all = pieces@.map_values(|p: Vec<char>| p@);
    proof {
        lemma_split_pieces_nonempty(s@, '\n');
    }
    let last = match pieces.pop() {
        Some(l) => l,
        None => Vec::new(),
    };
    let ghost kept = all.drop_last();
    proof {
        assert(pieces@.map_values(|p: Vec<char>| p@) =~= kept);
        assert(last@ == all.last());
    }
    let mut out: Vec<Vec<char>> = Vec::new();
    let mut i: usize = 0;
    while i < pieces.len()
        invariant
            i <= pieces@.len(),
            pieces@.map_values(|p: Vec<char>| p@) == kept,
            out@.map_values(|p: Vec<char>| p@) == kept.subrange(0, i as int).map_values(
                |l: Seq<char>| strip_cr(l),
            ),
        decreases pieces.len() - i,
    {
        let line = &pieces[i];
        let n = line.len();
        assert(kept[i as int] == line@);
        let mut trimmed: Vec<char> = Vec::new();
        let end = if n > 0 && line[n - 1] == '\r' {
            n - 1
        } else {
            n
        };
        let mut j: usize = 0;
        while j < end
            invariant
                j <= end <= n,
                n == line@.len(),
                trimmed@ == line@.subrange(0, j as int),
            decreases end - j,
        {
            trimmed.push(line[j]);
            j = j + 1;
            proof {
                assert(trimmed@ =~= line@.subrange(0, j as int));
            }
        }
        proof {
            assert(trimmed@ =~= strip_cr(line@));
        }
        let ghost before = out@.map_values(|p: Vec<char>| p@);
        let ghost tv = trimmed@;
        out.push(trimmed);
        proof {
            assert(out@.map_values(|p: Vec<char>| p@) =~= before.push(tv));
            assert(kept.subrange(0, i + 1).map_values(|l: Seq<char>| strip_cr(l)) =~= kept.subrange(
                0,
                i as int,
            ).map_values(|l: Seq<char>| strip_cr(l)).push(strip_cr(kept[i as int])));
            assert(out@.map_values(|p: Vec<char>| p@) =~= kept.subrange(0, i + 1).map_values(
                |l: Seq<char>| strip_cr(l),
            ));
        }
        i = i + 1;
    }
    proof {
        assert(kept.subrange(0, pieces@.len() as int) =~= kept);
    }
    if last.len() > 0 {
        let ghost before = out@.map_values(|p: Vec<char>| p@);
        let ghost lv = last@;
        out.push(last);
        proof {
            assert(out@.map_values(|p: Vec<char>| p@) =~= before.push(lv));
        }
    }
    out
}

proof fn lemma_split_pieces_nonempty(s: Seq<char>, sep: char)
    ensures
        split_pieces(s, sep).len() >= 1,
    decreases s.len(),
{
    if s.len() > 0 {
        lemma_split_pieces_nonempty(s.drop_last(), sep);
    }
}

proof fn lemma_digits_prefix(s: Seq<char>, j: int)
    requires
        0 <= j <= s.len(),
        forall|i: int| 0 <= i < s.len() ==> is_digit(#[trigger] s[i]),
    ensures
        digits_value(s.subrange(0, j)) <= digits_value(s),
    decreases s.len() - j,
{
    if j < s.len() {
        let t = s.subrange(0, j + 1);
        lemma_digits_prefix(s, j + 1);
        assert(t.drop_last() =~= s.subrange(0, j));
    } else {
        assert(s.subrange(0, j) =~= s);
    }
}

/// `s` read as an unsigned decimal number: an optional `+`, then one or
/// more digits, with a value that fits in `u64`.
pub fn parse_u64(s: &[char]) -> (r: Option<u64>)
    ensures
        r matches Some(v) ==> decimal_value(s@) == Some(v as nat),
        r is None ==> decimal_value(s@) is None,
{
    let n = s.len();
    let start: usize = if n > 0 && s[0] == '+' {
        1
    } else {
        0
    };
    let ghost body = unsigned_part(s@);
    proof {
        assert(body =~= s@.subrange(start as int, n as int));
    }
    if start >= n {
        assert(decimal_value(s@) is None);
        return None;
    }
    let mut value: u64 = 0;
    let mut i: usize = start;
    while i < n
        invariant
            start <= i <= n,
            n == s@.len(),
            body == s@.subrange(start as int, n as int),
            body == unsigned_part(s@),
            forall|k: int| 0 <= k < i - start ==> is_digit(#[trigger] body[k]),
            value == digits_value(body.subrange(0, i - start)),
        decreases n - i,
    {
        let c = s[i];
        if !(c >= '0' && c <= '9') {
            assert(!is_digit(body[i - start]));
            assert(decimal_value(s@) is None);
            return None;
        }
        let d = (c as u32 - '0' as u32) as u64;
        proof {
            assert(body.subrange(0, i + 1 - start).drop_last() =~= body.subrange(0, i - start));
            assert(body[i - start] == c);
            assert(body.subrange(0, i + 1 - start).last() == c);
            assert(digits_value(body.subrange(0, i + 1 - start)) == value * 10 + d);
        }
        match value.checked_mul(10) {
            Some(v10) => match v10.checked_add(d) {
                Some(v) => {
                    value = v;
                },
                None => {
                    proof {
                        if forall|k: int| 0 <= k < body.len() ==> is_digit(#[trigger] body[k]) {
                            lemma_digits_prefix(body, i + 1 - start);
                        }
                        assert(decimal_value(s@) is None);
                    }
                    return None;
                },
            },
            None => {
                proof {
                    if forall|k: int| 0 <= k < body.len() ==> is_digit(#[trigger] body[k]) {
                        lemma_digits_prefix(body, i + 1 - start);
                    }
                    assert(decimal_value(s@) is None);
                }
                return None;
            },
        }
        i = i + 1;
    }
    proof {
        assert(body.subrange(0, n - start) =~= body);
        assert(forall|k: int| 0 <= k < body.len() ==> is_digit(#[trigger] body[k]));
    }
    Some(value)
}

/// The index of the first `c` in `s`, if any.
pub open spec fn find_char(s: Seq<char>, c: char) -> Option<int>
    decreases s.len(),
{
    if s.len() == 0 {
        None
    } else if s[0] == c {
        Some(0)
    } else {
        match find_char(s.drop_first(), c) {
            Some(i) => Some(i + 1),
            None => None,
        }
    }
}

proof fn lemma_find_char(s: Seq<char>, c: char, i: int)
    requires
        0 <= i <= s.len(),
        forall|k: int| 0 <= k < i ==> s[k] != c,
    ensures
        i < s.len() && s[i] == c ==> find_char(s, c) == Some(i),
        i == s.len() ==> find_char(s, c) is None,
    decreases i,
{
    if i > 0 {
        lemma_find_char(s.drop_first(), c, i - 1);
    }
}

/// The index of the first `c` in `s`, if any.
pub fn position_of(s: &[char], c: char) -> (r: Option<usize>)
    ensures
        r matches Some(i) ==> i < s@.len() && find_char(s@, c) == Some(i as int),
        r is None ==> find_char(s@, c) is None,
{
    let mut i: usize = 0;
    while i < s.len()
        invariant
            i <= s@.len(),
            forall|k: int| 0 <= k < i ==> s@[k] != c,
        decreases s.len() - i,
    {
        if s[i] == c {
            proof {
                lemma_find_char(s@, c, i as int);
            }
            return Some(i);
        }
        i = i + 1;
    }
    proof {
        lemma_find_char(s@, c, i as int);
    }
    None
}

/// The characters of `s` from `start` up to `end`.
pub fn slice_chars(s: &[char], start: usize, end: usize) -> (r: Vec<char>)
    requires
        start <= end <= s@.len(),
    ensures
        r@ == s@.subrange(start as int, end as int),
{
    let mut out: Vec<char> = Vec::new();
    let mut i: usize = start;
    while i < end
        invariant
            start <= i <= end <= s@.len(),
            out@ == s@.subrange(start as int, i as int),
        decreases end - i,
    {
        out.push(s[i]);
        i = i + 1;
        proof {
            assert(out@ =~= s@.subrange(start as int, i as int));
        }
    }
    out
}

/// The decimal readings of `ws`, if every one is a number that fits in
/// `u64`.
pub open spec fn numbers(ws: Seq<Seq<char>>) -> Option<Seq<u64>>
    decreases ws.len(),
{
    if ws.len() == 0 {
        Some(Seq::empty())
    } else {
        match (numbers(ws.drop_last()), decimal_value(ws.last())) {
            (Some(vs), Some(v)) => Some(vs.push(v as u64)),
            _ => None,
        }
    }
}

/// Reads every one of `ws` as a decimal number.
pub fn parse_all_u64(ws: &Vec<Vec<char>>) -> (r: Option<Vec<u64>>)
    ensures
        match numbers(ws@.map_values(|w: Vec<char>| w@)) {
            Some(vs) => r matches Some(v) && v@ == vs,
            None => r is None,
        },
{
    let ghost views = ws@.map_values(|w: Vec<char>| w@);
    let mut out: Vec<u64> = Vec::new();
    let mut i: usize = 0;
    while i < ws.len()
        invariant
            i <= ws@.len(),
            views == ws@.map_values(|w: Vec<char>| w@),
            numbers(views.subrange(0, i as int)) == Some(out@),
        decreases ws.len() - i,
    {
        proof {
            assert(views.subrange(0, i + 1).drop_last() =~= views.subrange(0, i as int));
            assert(views[i as int] == ws@[i as int]@);
        }
        match parse_u64(ws[i].as_slice()) {
            Some(v) => {
                out.push(v);
            },
            None => {
                proof {
                    lemma_numbers_fail(views, i as int + 1, views.len() as int);
                    assert(views.subrange(0, views.len() as int) =~= views);
                }
                return None;
            },
        }
        i = i + 1;
    }
    proof {
        assert(views.subrange(0, views.len() as int) =~= views);
    }
    Some(out)
}

proof fn lemma_numbers_fail(ws: Seq<Seq<char>>, i: int, j: int)
    requires
        0 <= i <= j <= ws.len(),
        numbers(ws.subrange(0, i)) is None,
    ensures
        numbers(ws.subrange(0, j)) is None,
    decreases j - i,
{
    if i < j {
        lemma_numbers_fail(ws, i, j - 1);
        assert(ws.subrange(0, j).drop_last() =~= ws.subrange(0, j - 1));
    }
}

/// Whether `s` is one or more decimal digits.
pub open spec fn all_digits(s: Seq<char>) -> bool {
    s.len() > 0 && forall|i: int| 0 <= i < s.len() ==> is_digit(#[trigger] s[i])
}

/// `s` read as a signed decimal number that fits in `i8`: an optional `+`
/// or `-` and then one or more digits.
pub open spec fn small_signed_value(s: Seq<char>) -> Option<i8> {
    let negative = s.len() > 0 && s[0] == '-';
    let body = if s.len() > 0 && (s[0] == '-' || s[0] == '+') {
        s.drop_first()
    } else {
        s
    };
    if all_digits(body) {
        let v: int = if negative {
            -digits_value(body)
        } else {
            digits_value(body) as int
        };
        if -128 <= v <= 127 {
            Some(v as i8)
        } else {
            None
        }
    } else {
        None
    }
}

/// `s` read as a signed decimal number that fits in `i8`.
pub fn parse_i8(s: &[char]) -> (r: Option<i8>)
    ensures
        r == small_signed_value(s@),
{
    let n = s.len();
    let negative = n > 0 && s[0] == '-';
    let start: usize = if n > 0 && (s[0] == '-' || s[0] == '+') {
        1
    } else {
        0
    };
    let body = slice_chars(s, start, n);
    proof {
        assert(body@ =~= (if s@.len() > 0 && (s@[0] == '-' || s@[0] == '+') {
            s@.drop_first()
        } else {
            s@
        }));
    }
    if body.len() > 0 && body[0] == '+' {
        assert(!is_digit(body@[0]));
        return None;
    }
    proof {
        assert(unsigned_part(body@) == body@);
    }
    match parse_u64(body.as_slice()) {
        Some(v) => {
            if negative {
                if v <= 128 {
                    Some((0i16 - v as i16) as i8)
                } else {
                    None
                }
            } else if v <= 127 {
                Some(v as i8)
            } else {
                None
            }
        },
        None => {
            proof {
                if all_digits(body@) {
                    assert(digits_value(body@) > u64::MAX);
                }
            }
            None
        },
    }
}

/// The index of the first two consecutive `c` in `s`, if any.
pub open spec fn find_pair(s: Seq<char>, c: char) -> Option<int>
    decreases s.len(),
{
    if s.len() < 2 {
        None
    } else if s[0] == c && s[1] == c {
        Some(0)
    } else {
        match find_pair(s.drop_first(), c) {
            Some(i) => Some(i + 1),
            None => None,
        }
    }
}

proof fn lemma_find_pair(s: Seq<char>, c: char, i: int)
    requires
        0 <= i,
        i + 1 <= s.len(),
        forall|k: int| 0 <= k < i ==> !(s[k] == c && #[trigger] s[k + 1] == c),
    ensures
        i + 1 < s.len() && s[i] == c && s[i + 1] == c ==> find_pair(s, c) == Some(i),
        i + 1 == s.len() ==> find_pair(s, c) is None,
    decreases i,
{
    if i > 0 {
        assert forall|k: int| 0 <= k < i - 1 implies !(s.drop_first()[k] == c
            && #[trigger] s.drop_first()[k + 1] == c) by {
            assert(s.drop_first()[k] == s[k + 1]);
            assert(s.drop_first()[k + 1] == s[k + 2]);
        }
        lemma_find_pair(s.drop_first(), c, i - 1);
    }
}

/// The index of the first two consecutive `c` in `s`, if any.
pub fn position_of_pair(s: &[char], c: char) -> (r: Option<usize>)
    ensures
        r matches Some(i) ==> i + 1 < s@.len() && find_pair(s@, c) == Some(i as int),
        r is None ==> find_pair(s@, c) is None,
{
    let n = s.len();
    if n < 2 {
        return None;
    }
    let mut i: usize = 0;
    while i + 1 < n
        invariant
            i + 1 <= n,
            n == s@.len(),
            forall|k: int| 0 <= k < i ==> !(s@[k] == c && #[trigger] s@[k + 1] == c),
        decreases n - i,
    {
        if s[i] == c && s[i + 1] == c {
            proof {
                lemma_find_pair(s@, c, i as int);
            }
            return Some(i);
        }
        i = i + 1;
    }
    proof {
        lemma_find_pair(s@, c, i as int);
    }
    None
}

} // verus!
