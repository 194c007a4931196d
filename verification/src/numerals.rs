use vstd::prelude::*;
use vstd::string::*;

use crate::err::{ErrCode, Res};

verus! {

/// The symbol (overbar line, character line) for one of the four roles a
/// roman digit plays at a decimal place: 0 = one (for 1 to 3), 1 = one (next
/// to a five or ten), 2 = five, 3 = ten.
pub open spec fn roman_symbol(place: int, role: int) -> (char, char) {
    if place == 0 {
        if role <= 1 { (' ', 'I') } else if role == 2 { (' ', 'V') } else { (' ', 'X') }
    } else if place == 1 {
        if role <= 1 { (' ', 'X') } else if role == 2 { (' ', 'L') } else { (' ', 'C') }
    } else if place == 2 {
        if role <= 1 { (' ', 'C') } else if role == 2 { (' ', 'D') } else { (' ', 'M') }
    } else if place == 3 {
        if role == 0 { (' ', 'M') } else if role == 1 { ('_', 'I') } else if role == 2 { ('_', 'V') } else { ('_', 'X') }
    } else if place == 4 {
        if role <= 1 { ('_', 'X') } else if role == 2 { ('_', 'L') } else { ('_', 'C') }
    } else if place == 5 {
        if role <= 1 { ('_', 'C') } else if role == 2 { ('_', 'D') } else { ('_', 'M') }
    } else if place == 6 {
        if role == 0 { ('_', 'M') } else if role == 1 { (' ', 'i') } else if role == 2 { (' ', 'v') } else { (' ', 'x') }
    } else if place == 7 {
        if role <= 1 { (' ', 'x') } else if role == 2 { (' ', 'l') } else { (' ', 'c') }
    } else if place == 8 {
        if role <= 1 { (' ', 'c') } else if role == 2 { (' ', 'd') } else { (' ', 'm') }
    } else {
        if role == 0 { (' ', 'm') } else if role == 1 { ('_', 'i') } else if role == 2 { ('_', 'v') } else { ('_', 'x') }
    }
}

/// The roles, in reading order, of the symbols that write decimal digit `d`.
pub open spec fn digit_roles(d: int) -> Seq<int> {
    if d == 1 {
        seq![0]
    } else if d == 2 {
        seq![0, 0]
    } else if d == 3 {
        seq![0, 0, 0]
    } else if d == 4 {
        seq![1, 2]
    } else if d == 5 {
        seq![2]
    } else if d == 6 {
        seq![2, 1]
    } else if d == 7 {
        seq![2, 1, 1]
    } else if d == 8 {
        seq![2, 1, 1, 1]
    } else if d == 9 {
        seq![1, 3]
    } else {
        seq![]
    }
}

/// The symbols writing digit `d` at decimal place `place`.
pub open spec fn digit_symbols(d: int, place: int) -> Seq<(char, char)> {
    digit_roles(d).map_values(|role: int| roman_symbol(place, role))
}

/// The symbols writing `v`, whose lowest digit stands at decimal place `place`.
pub open spec fn roman_symbols(v: nat, place: int) -> Seq<(char, char)>
    decreases v,
{
    if v == 0 {
        seq![]
    } else {
        roman_symbols(v / 10, place + 1) + digit_symbols((v % 10) as int, place)
    }
}

/// The text of `val` in roman numerals: the overbar line, a newline, the
/// character line and a newline; zero is a lone overbar.
pub open spec fn roman_text(val: u32) -> Seq<char> {
    if val == 0 {
        seq!['_', '\n', '\n']
    } else {
        let syms = roman_symbols(val as nat, 0);
        syms.map_values(|s: (char, char)| s.0) + seq!['\n'] + syms.map_values(|s: (char, char)| s.1)
            + seq!['\n']
    }
}

/// The symbol for `role` at decimal place `place`.
fn symbol(place: usize, role: usize) -> (r: (char, char))
    requires
        place < 10,
        role < 4,
    ensures
        r == roman_symbol(place as int, role as int),
{
    match place {
        0 => if role <= 1 { (' ', 'I') } else if role == 2 { (' ', 'V') } else { (' ', 'X') },
        1 => if role <= 1 { (' ', 'X') } else if role == 2 { (' ', 'L') } else { (' ', 'C') },
        2 => if role <= 1 { (' ', 'C') } else if role == 2 { (' ', 'D') } else { (' ', 'M') },
        3 => if role == 0 { (' ', 'M') } else if role == 1 { ('_', 'I') } else if role == 2 { ('_', 'V') } else { ('_', 'X') },
        4 => if role <= 1 { ('_', 'X') } else if role == 2 { ('_', 'L') } else { ('_', 'C') },
        5 => if role <= 1 { ('_', 'C') } else if role == 2 { ('_', 'D') } else { ('_', 'M') },
        6 => if role == 0 { ('_', 'M') } else if role == 1 { (' ', 'i') } else if role == 2 { (' ', 'v') } else { (' ', 'x') },
        7 => if role <= 1 { (' ', 'x') } else if role == 2 { (' ', 'l') } else { (' ', 'c') },
        8 => if role <= 1 { (' ', 'c') } else if role == 2 { (' ', 'd') } else { (' ', 'm') },
        _ => if role == 0 { (' ', 'm') } else if role == 1 { ('_', 'i') } else if role == 2 { ('_', 'v') } else { ('_', 'x') },
    }
}

/// The characters that roman numerals are drawn with.
spec fn is_roman_char(c: char) -> bool {
    c == ' ' || c == '_' || c == 'I' || c == 'V' || c == 'X' || c == 'L' || c == 'C' || c == 'D'
        || c == 'M' || c == 'i' || c == 'v' || c == 'x' || c == 'l' || c == 'c' || c == 'd' || c
        == 'm'
}

/// A one-character string holding `c`.
fn char_str(c: char) -> (s: &'static str)
    requires
        is_roman_char(c),
    ensures
        s@ == seq![c],
{
    if c == ' ' {
        proof { reveal_strlit(" "); }
        " "
    } else if c == '_' {
        proof { reveal_strlit("_"); }
        "_"
    } else if c == 'I' {
        proof { reveal_strlit("I"); }
        "I"
    } else if c == 'V' {
        proof { reveal_strlit("V"); }
        "V"
    } else if c == 'X' {
        proof { reveal_strlit("X"); }
        "X"
    } else if c == 'L' {
        proof { reveal_strlit("L"); }
        "L"
    } else if c == 'C' {
        proof { reveal_strlit("C"); }
        "C"
    } else if c == 'D' {
        proof { reveal_strlit("D"); }
        "D"
    } else if c == 'M' {
        proof { reveal_strlit("M"); }
        "M"
    } else if c == 'i' {
        proof { reveal_strlit("i"); }
        "i"
    } else if c == 'v' {
        proof { reveal_strlit("v"); }
        "v"
    } else if c == 'x' {
        proof { reveal_strlit("x"); }
        "x"
    } else if c == 'l' {
        proof { reveal_strlit("l"); }
        "l"
    } else if c == 'c' {
        proof { reveal_strlit("c"); }
        "c"
    } else if c == 'd' {
        proof { reveal_strlit("d"); }
        "d"
    } else {
        proof { reveal_strlit("m"); }
        "m"
    }
}

/// Append the symbol for `role` at `place` to the two lines.
fn push_symbol(l1: &mut String, l2: &mut String, place: usize, role: usize)
    requires
        place < 10,
        role < 4,
    ensures
        final(l1)@ == old(l1)@.push(roman_symbol(place as int, role as int).0),
        final(l2)@ == old(l2)@.push(roman_symbol(place as int, role as int).1),
{
    let (a, b) = symbol(place, role);
    l1.append(char_str(a));
    l2.append(char_str(b));
    assert(l1@ =~= old(l1)@.push(a));
    assert(l2@ =~= old(l2)@.push(b));
}

/// Append the symbols of digit `d` at `place` to the two lines.
fn push_digit(l1: &mut String, l2: &mut String, d: u32, place: usize)
    requires
        place < 10,
        d < 10,
    ensures
        final(l1)@ == old(l1)@ + digit_symbols(d as int, place as int).map_values(|s: (char, char)| s.0),
        final(l2)@ == old(l2)@ + digit_symbols(d as int, place as int).map_values(|s: (char, char)| s.1),
{
    let ghost p = place as int;
    if d == 1 {
        push_symbol(l1, l2, place, 0);
    } else if d == 2 {
        push_symbol(l1, l2, place, 0);
        push_symbol(l1, l2, place, 0);
    } else if d == 3 {
        push_symbol(l1, l2, place, 0);
        push_symbol(l1, l2, place, 0);
        push_symbol(l1, l2, place, 0);
    } else if d == 4 {
        push_symbol(l1, l2, place, 1);
        push_symbol(l1, l2, place, 2);
    } else if d == 5 {
        push_symbol(l1, l2, place, 2);
    } else if d == 6 {
        push_symbol(l1, l2, place, 2);
        push_symbol(l1, l2, place, 1);
    } else if d == 7 {
        push_symbol(l1, l2, place, 2);
        push_symbol(l1, l2, place, 1);
        push_symbol(l1, l2, place, 1);
    } else if d == 8 {
        push_symbol(l1, l2, place, 2);
        push_symbol(l1, l2, place, 1);
        push_symbol(l1, l2, place, 1);
        push_symbol(l1, l2, place, 1);
    } else if d == 9 {
        push_symbol(l1, l2, place, 1);
        push_symbol(l1, l2, place, 3);
    }
    assert(l1@ =~= old(l1)@ + digit_symbols(d as int, p).map_values(|s: (char, char)| s.0));
    assert(l2@ =~= old(l2)@ + digit_symbols(d as int, p).map_values(|s: (char, char)| s.1));
}

spec fn pow10(n: nat) -> nat
    decreases n,
{
    if n == 0 {
        1
    } else {
        10 * pow10((n - 1) as nat)
    }
}

/// Convert a number into Roman numeral representation: the overbar line and
/// the character line, each ended by a newline.
pub fn to_roman(val: u32) -> (r: String)
    ensures
        r@ == roman_text(val),
{
    if val == 0 {
        // zero is just a lone overbar
        proof { reveal_strlit("_\n\n"); }
        return String::from_str("_\n\n");
    }
    // The successive quotients val, val / 10, val / 100, ... down to zero.
    let mut quots: Vec<u32> = Vec::new();
    let mut q = val;
    proof {
        reveal_with_fuel(pow10, 11);
        assert(pow10(10) == 10000000000);
    }
    while q > 0
        invariant
            quots@.len() <= 10,
            q < pow10((10 - quots@.len()) as nat),
            quots@.len() == 0 ==> q == val,
            quots@.len() > 0 ==> q == quots@.last() / 10,
            quots@.len() > 0 ==> quots@[0] == val,
            forall|k: int| 0 <= k < quots@.len() - 1 ==> #[trigger] quots@[k + 1] == quots@[k] / 10,
            forall|k: int| 0 <= k < quots@.len() ==> #[trigger] quots@[k] > 0,
        decreases q,
    {
        let ghost n = quots@.len();
        quots.push(q);
        assert(pow10((10 - n) as nat) == 10 * pow10((10 - n - 1) as nat));
        q = q / 10;
    }
    let mut l1 = String::new();
    let mut l2 = String::new();
    let nplaces = quots.len();
    let mut place = nplaces;
    assert(roman_symbols(0, nplaces as int) =~= Seq::<(char, char)>::empty());
    while place > 0
        invariant
            place <= nplaces,
            nplaces == quots@.len(),
            nplaces <= 10,
            nplaces > 0,
            quots@[0] == val,
            quots@.last() / 10 == 0,
            forall|k: int| 0 <= k < quots@.len() - 1 ==> #[trigger] quots@[k + 1] == quots@[k] / 10,
            l1@ == roman_symbols(
                if place == nplaces { 0 } else { quots@[place as int] as nat },
                place as int,
            ).map_values(|s: (char, char)| s.0),
            l2@ == roman_symbols(
                if place == nplaces { 0 } else { quots@[place as int] as nat },
                place as int,
            ).map_values(|s: (char, char)| s.1),
        decreases place,
    {
        place = place - 1;
        let qp = quots[place];
        let ghost rest = roman_symbols(qp as nat / 10, place + 1);
        assert(rest == roman_symbols(
            if place + 1 == nplaces { 0 } else { quots@[place + 1] as nat },
            place + 1,
        ));
        push_digit(&mut l1, &mut l2, qp % 10, place);
        proof {
            let syms = roman_symbols(qp as nat, place as int);
            let ds = digit_symbols((qp % 10) as int, place as int);
            assert(syms == rest + ds);
            assert(syms.map_values(|s: (char, char)| s.0) =~= rest.map_values(|s: (char, char)| s.0)
                + ds.map_values(|s: (char, char)| s.0));
            assert(syms.map_values(|s: (char, char)| s.1) =~= rest.map_values(|s: (char, char)| s.1)
                + ds.map_values(|s: (char, char)| s.1));
        }
    }
    proof { reveal_strlit("\n"); }
    l1.append("\n");
    l1.append(l2.as_str());
    l1.append("\n");
    l1
}

/// Unicode white space, which separates the words of a number.
pub open spec fn is_space(c: char) -> bool {
    let u = c as u32;
    (0x9 <= u <= 0xd) || u == 0x20 || u == 0x85 || u == 0xa0 || u == 0x1680 || (0x2000 <= u
        <= 0x200a) || u == 0x2028 || u == 0x2029 || u == 0x202f || u == 0x205f || u == 0x3000
}

/// Whether `c` is Unicode white space.
fn is_space_char(c: char) -> (r: bool)
    ensures
        r == is_space(c),
{
    let u = c as u32;
    (0x9 <= u && u <= 0xd) || u == 0x20 || u == 0x85 || u == 0xa0 || u == 0x1680 || (0x2000 <= u
        && u <= 0x200a) || u == 0x2028 || u == 0x2029 || u == 0x202f || u == 0x205f || u == 0x3000
}

/// The end of the word of `s` that runs from position `i`.
pub open spec fn word_end(s: Seq<char>, i: int) -> int
    decreases s.len() - i,
{
    if i < 0 || i >= s.len() || is_space(s[i]) {
        i
    } else {
        word_end(s, i + 1)
    }
}

/// A word runs from its first character up to the text's end at most.
pub proof fn lemma_word_end(s: Seq<char>, i: int)
    requires
        0 <= i <= s.len(),
    ensures
        i <= word_end(s, i) <= s.len(),
        i < s.len() && !is_space(s[i]) ==> i < word_end(s, i),
    decreases s.len() - i,
{
    if i < s.len() && !is_space(s[i]) {
        lemma_word_end(s, i + 1);
    }
}

/// The words (maximal runs of non-space characters) of `s` from position `i` on.
pub open spec fn words_from(s: Seq<char>, i: int) -> Seq<Seq<char>>
    decreases s.len() - i,
{
    if i < 0 || i >= s.len() {
        seq![]
    } else if is_space(s[i]) {
        words_from(s, i + 1)
    } else {
        let e = word_end(s, i);
        proof {
            lemma_word_end(s, i);
        }
        seq![s.subrange(i, e)] + words_from(s, e)
    }
}

/// The words of `s`, as split at white space.
pub open spec fn words(s: Seq<char>) -> Seq<Seq<char>> {
    words_from(s, 0)
}

/// The digit an English word stands for, if it is one of ZERO, OH, ONE, ...,
/// NINE, NINER.
pub open spec fn english_digit(w: Seq<char>) -> Option<u8> {
    if w == seq!['Z', 'E', 'R', 'O'] || w == seq!['O', 'H'] {
        Some(0u8)
    } else if w == seq!['O', 'N', 'E'] {
        Some(1u8)
    } else if w == seq!['T', 'W', 'O'] {
        Some(2u8)
    } else if w == seq!['T', 'H', 'R', 'E', 'E'] {
        Some(3u8)
    } else if w == seq!['F', 'O', 'U', 'R'] {
        Some(4u8)
    } else if w == seq!['F', 'I', 'V', 'E'] {
        Some(5u8)
    } else if w == seq!['S', 'I', 'X'] {
        Some(6u8)
    } else if w == seq!['S', 'E', 'V', 'E', 'N'] {
        Some(7u8)
    } else if w == seq!['E', 'I', 'G', 'H', 'T'] {
        Some(8u8)
    } else if w == seq!['N', 'I', 'N', 'E'] || w == seq!['N', 'I', 'N', 'E', 'R'] {
        Some(9u8)
    } else {
        None
    }
}

/// Every word is a digit word.
pub open spec fn all_digit_words(ws: Seq<Seq<char>>) -> bool {
    forall|k: int| 0 <= k < ws.len() ==> (#[trigger] english_digit(ws[k])) is Some
}

/// The first word that is not a digit word.
pub open spec fn first_unknown(ws: Seq<Seq<char>>) -> Seq<char>
    decreases ws.len(),
{
    if ws.len() == 0 {
        seq![]
    } else if english_digit(ws[0]) is None {
        ws[0]
    } else {
        first_unknown(ws.drop_first())
    }
}

/// The digits the words stand for.
pub open spec fn word_digits(ws: Seq<Seq<char>>) -> Seq<u8> {
    ws.map_values(|w: Seq<char>| english_digit(w)->0)
}

/// The number written by decimal digits, most significant first.
pub open spec fn decimal_value(ds: Seq<u8>) -> nat
    decreases ds.len(),
{
    if ds.len() == 0 {
        0
    } else {
        decimal_value(ds.drop_last()) * 10 + ds.last() as nat
    }
}


proof fn lemma_first_unknown_skip(a: Seq<Seq<char>>, b: Seq<Seq<char>>)
    requires
        all_digit_words(a),
    ensures
        first_unknown(a + b) == first_unknown(b),
    decreases a.len(),
{
    if a.len() > 0 {
        assert(english_digit(a[0]) is Some);
        assert((a + b).drop_first() =~= a.drop_first() + b);
        assert(all_digit_words(a.drop_first())) by {
            assert forall|k: int| 0 <= k < a.drop_first().len() implies (#[trigger] english_digit(
                a.drop_first()[k],
            )) is Some by {
                assert(a.drop_first()[k] == a[k + 1]);
            }
        }
        lemma_first_unknown_skip(a.drop_first(), b);
    } else {
        assert(a + b =~= b);
    }
}

proof fn lemma_decimal_prefix(ds: Seq<u8>, k: int)
    requires
        0 <= k <= ds.len(),
    ensures
        decimal_value(ds.take(k)) <= decimal_value(ds),
    decreases ds.len() - k,
{
    if k < ds.len() {
        lemma_decimal_prefix(ds, k + 1);
        assert(ds.take(k + 1).drop_last() =~= ds.take(k));
    } else {
        assert(ds.take(k) =~= ds);
    }
}

/// Whether `w` holds exactly the characters of `a`.
fn same_chars(w: &Vec<char>, a: &[char]) -> (r: bool)
    ensures
        r == (w@ == a@),
{
    if w.len() != a.len() {
        return false;
    }
    let mut i: usize = 0;
    while i < w.len()
        invariant
            i <= w@.len(),
            w@.len() == a@.len(),
            forall|j: int| 0 <= j < i ==> w@[j] == a@[j],
        decreases w@.len() - i,
    {
        if w[i] != a[i] {
            return false;
        }
        i = i + 1;
    }
    assert(w@ =~= a@);
    true
}

/// The digit an English word stands for, if any.
fn lookup_digit(w: &Vec<char>) -> (r: Option<u8>)
    ensures
        r == english_digit(w@),
{
    let zero = ['Z', 'E', 'R', 'O'];
    let oh = ['O', 'H'];
    let one = ['O', 'N', 'E'];
    let two = ['T', 'W', 'O'];
    let three = ['T', 'H', 'R', 'E', 'E'];
    let four = ['F', 'O', 'U', 'R'];
    let five = ['F', 'I', 'V', 'E'];
    let six = ['S', 'I', 'X'];
    let seven = ['S', 'E', 'V', 'E', 'N'];
    let eight = ['E', 'I', 'G', 'H', 'T'];
    let nine = ['N', 'I', 'N', 'E'];
    let niner = ['N', 'I', 'N', 'E', 'R'];
    assert(zero@ =~= seq!['Z', 'E', 'R', 'O']);
    assert(oh@ =~= seq!['O', 'H']);
    assert(one@ =~= seq!['O', 'N', 'E']);
    assert(two@ =~= seq!['T', 'W', 'O']);
    assert(three@ =~= seq!['T', 'H', 'R', 'E', 'E']);
    assert(four@ =~= seq!['F', 'O', 'U', 'R']);
    assert(five@ =~= seq!['F', 'I', 'V', 'E']);
    assert(six@ =~= seq!['S', 'I', 'X']);
    assert(seven@ =~= seq!['S', 'E', 'V', 'E', 'N']);
    assert(eight@ =~= seq!['E', 'I', 'G', 'H', 'T']);
    assert(nine@ =~= seq!['N', 'I', 'N', 'E']);
    assert(niner@ =~= seq!['N', 'I', 'N', 'E', 'R']);
    if same_chars(w, &zero) || same_chars(w, &oh) {
        Some(0)
    } else if same_chars(w, &one) {
        Some(1)
    } else if same_chars(w, &two) {
        Some(2)
    } else if same_chars(w, &three) {
        Some(3)
    } else if same_chars(w, &four) {
        Some(4)
    } else if same_chars(w, &five) {
        Some(5)
    } else if same_chars(w, &six) {
        Some(6)
    } else if same_chars(w, &seven) {
        Some(7)
    } else if same_chars(w, &eight) {
        Some(8)
    } else if same_chars(w, &nine) || same_chars(w, &niner) {
        Some(9)
    } else {
        None
    }
}

/// The digits of the words of `v`, or the first word that is no digit.
fn parse_words(v: &str) -> (r: Result<Vec<u8>, String>)
    ensures
        r is Ok <==> all_digit_words(words(v@)),
        r matches Ok(ds) ==> ds@ == word_digits(words(v@)),
        r matches Err(w) ==> w@ == first_unknown(words(v@)),
{
    let ghost s = v@;
    let n = v.unicode_len();
    let mut i: usize = 0;
    let mut digits: Vec<u8> = Vec::new();
    let ghost mut seen: Seq<Seq<char>> = seq![];
    while i < n
        invariant
            i <= n,
            n == s.len(),
            s == v@,
            words(s) == seen + words_from(s, i as int),
            all_digit_words(seen),
            digits@ == word_digits(seen),
        decreases n - i,
    {
        let c = v.get_char(i);
        if is_space_char(c) {
            i = i + 1;
        } else {
            let start = i;
            let mut word: Vec<char> = Vec::new();
            proof {
                lemma_word_end(s, start as int);
            }
            while i < n && !is_space_char(v.get_char(i))
                invariant
                    start <= i <= n,
                    n == s.len(),
                    s == v@,
                    start < n,
                    !is_space(s[start as int]),
                    word@ == s.subrange(start as int, i as int),
                    word_end(s, start as int) == word_end(s, i as int),
                decreases n - i,
            {
                word.push(v.get_char(i));
                i = i + 1;
                assert(word@ =~= s.subrange(start as int, i as int));
            }
            assert(word_end(s, start as int) == i);
            assert(words_from(s, start as int) == seq![word@] + words_from(s, i as int));
            match lookup_digit(&word) {
                Some(d) => {
                    digits.push(d);
                    proof {
                        assert(seen + words_from(s, start as int) =~= seen.push(word@) + words_from(
                            s,
                            i as int,
                        ));
                        seen = seen.push(word@);
                        assert(digits@ =~= word_digits(seen));
                    }
                },
                None => {
                    proof {
                        assert(words(s) =~= seen + (seq![word@] + words_from(s, i as int)));
                        lemma_first_unknown_skip(seen, seq![word@] + words_from(s, i as int));
                        assert(english_digit(words(s)[seen.len() as int]) is None);
                    }
                    return Err(String::from_str(v.substring_char(start, i)));
                },
            }
        }
    }
    assert(words_from(s, n as int) =~= Seq::<Seq<char>>::empty());
    assert(words(s) =~= seen);
    Ok(digits)
}

/// The number written by the digits, if it fits in 64 bits.
fn digits_value(digits: &Vec<u8>) -> (r: Option<u64>)
    requires
        forall|k: int| 0 <= k < digits@.len() ==> #[trigger] digits@[k] <= 9,
    ensures
        r is Some <==> decimal_value(digits@) <= u64::MAX,
        r matches Some(x) ==> x == decimal_value(digits@),
{
    let mut res: u64 = 0;
    let mut k: usize = 0;
    assert(digits@.take(0) =~= Seq::<u8>::empty());
    while k < digits.len()
        invariant
            k <= digits@.len(),
            forall|j: int| 0 <= j < digits@.len() ==> #[trigger] digits@[j] <= 9,
            res == decimal_value(digits@.take(k as int)),
        decreases digits@.len() - k,
    {
        proof {
            assert(digits@.take(k + 1).drop_last() =~= digits@.take(k as int));
        }
        let next = match res.checked_mul(10) {
            Some(t) => t.checked_add(digits[k] as u64),
            None => None,
        };
        match next {
            Some(t) => {
                res = t;
            },
            None => {
                proof {
                    lemma_decimal_prefix(digits@, k + 1);
                }
                return None;
            },
        }
        k = k + 1;
    }
    proof {
        assert(digits@.take(digits@.len() as int) =~= digits@);
    }
    Some(res)
}

proof fn lemma_word_digits_small(ws: Seq<Seq<char>>)
    requires
        all_digit_words(ws),
    ensures
        forall|k: int| 0 <= k < word_digits(ws).len() ==> #[trigger] word_digits(ws)[k] <= 9,
{
    assert forall|k: int| 0 <= k < word_digits(ws).len() implies #[trigger] word_digits(ws)[k] <= 9 by {
        assert(english_digit(ws[k]) is Some);
    }
}

/// Convert a number represented as digits spelled out in English (ZERO or
/// OH, ONE, ..., NINE or NINER, separated by white space): IE579 naming the
/// first word that is no digit, else IE533 when the number exceeds 32 bits.
pub fn from_english(v: &str, line: usize) -> (r: Res<u32>)
    ensures
        !all_digit_words(words(v@)) ==> (r matches Err(e) && e.code == ErrCode::IE579 && e.line
            == line && (e.word matches Some(w) && w@ == first_unknown(words(v@)))),
        all_digit_words(words(v@)) ==> (r is Ok <==> decimal_value(word_digits(words(v@)))
            <= u32::MAX),
        all_digit_words(words(v@)) ==> (r matches Ok(x) ==> x == decimal_value(
            word_digits(words(v@)),
        )),
        all_digit_words(words(v@)) ==> (r matches Err(e) ==> e.code == ErrCode::IE533 && e.word
            is None && e.line == line),
{
    let digits = match parse_words(v) {
        Err(word) => return ErrCode::IE579.err_with(Some(word), line),
        Ok(digits) => digits,
    };
    proof {
        lemma_word_digits_small(words(v@));
    }
    let res = match digits_value(&digits) {
        Some(x) => x,
        None => return ErrCode::IE533.err_with(None, line),
    };
    if res > (u32::MAX as u64) {
        ErrCode::IE533.err_with(None, line)
    } else {
        Ok(res as u32)
    }
}

} // verus!
