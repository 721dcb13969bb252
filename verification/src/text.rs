//! Strings: prefixes, pieces, words, decimal numbers, UTF-8.

use vstd::prelude::*;
use vstd::utf8::*;

verus! {

/// A character of ASCII.
pub open spec fn ascii_char(c: char) -> bool {
    (c as u32) < 0x80
}

/// All characters of `s` are of ASCII.
pub open spec fn ascii(s: Seq<char>) -> bool {
    forall|i: int| 0 <= i < s.len() ==> ascii_char(#[trigger] s[i])
}

/// The lowercase letter of a capital of ASCII; other characters as they are.
pub open spec fn ascii_lower(c: char) -> char {
    if 'A' <= c <= 'Z' {
        ((c as u32) + 32) as char
    } else {
        c
    }
}

/// The capital of a lowercase letter of ASCII; other characters as they are.
pub open spec fn ascii_upper(c: char) -> char {
    if 'a' <= c <= 'z' {
        ((c as u32) - 32) as char
    } else {
        c
    }
}

/// Strings of ASCII that differ in letter case at most.
pub open spec fn alike(a: Seq<char>, b: Seq<char>) -> bool {
    &&& a.len() == b.len()
    &&& forall|i: int|
        #![trigger a[i]]
        #![trigger b[i]]
        0 <= i < a.len() ==> ascii_char(a[i]) && ascii_char(b[i]) && ascii_lower(a[i])
            == ascii_lower(b[i])
}

/// What `str::to_lowercase` makes of a string that has other characters than those of ASCII.
pub uninterp spec fn unicode_lowercase(s: Seq<char>) -> Seq<char>;

/// The lowercase form of a string.
pub open spec fn lowercase(s: Seq<char>) -> Seq<char> {
    if ascii(s) {
        s.map_values(|c: char| ascii_lower(c))
    } else {
        unicode_lowercase(s)
    }
}

/// `str::to_lowercase`: the lowercase equivalent of a string by the rules of Unicode. In ASCII that
/// turns each of the letters `A` to `Z` into its lowercase letter and leaves the rest; for other
/// strings the result, which depends on the string alone, is named.
pub assume_specification[ str::to_lowercase ](s: &str) -> (r: String)
    ensures
        ascii(s@) ==> r@ == s@.map_values(|c: char| ascii_lower(c)),
        !ascii(s@) ==> r@ == unicode_lowercase(s@),
;

/// Strings that differ in letter case at most have one lowercase form.
pub proof fn alike_in_lowercase(a: Seq<char>, b: Seq<char>)
    requires
        alike(a, b),
    ensures
        lowercase(a) == lowercase(b),
{
    assert(ascii(a) && ascii(b));
    assert(lowercase(a) =~= lowercase(b));
}

/// A string of ASCII differs from itself in capitals in letter case at most.
pub proof fn alike_in_capitals(s: Seq<char>)
    requires
        ascii(s),
    ensures
        alike(s.map_values(|c: char| ascii_upper(c)), s),
{
}

/// `String::push`: appends one character.
pub assume_specification[ String::push ](s: &mut String, c: char)
    ensures
        final(s)@ == old(s)@.push(c),
;

/// What `String::from_utf8_lossy` makes of bytes that are not UTF-8.
pub uninterp spec fn lossy_text(bytes: Seq<u8>) -> Seq<char>;

/// The text that bytes stand for: what they encode if they are UTF-8, else what is left of it
/// once the parts that are not have been replaced.
pub open spec fn text_of(bytes: Seq<u8>) -> Seq<char> {
    if valid_utf8(bytes) {
        decode_utf8(bytes)
    } else {
        lossy_text(bytes)
    }
}

/// `String::from_utf8_lossy`: bytes that are UTF-8 come back as the string that they encode; for
/// others the result, with replacement characters, is named.
#[verifier::external_body]
pub(crate) fn from_utf8_lossy(bytes: &[u8]) -> (r: String)
    ensures
        valid_utf8(bytes@) ==> r@ == decode_utf8(bytes@),
        !valid_utf8(bytes@) ==> r@ == lossy_text(bytes@),
{
    String::from_utf8_lossy(bytes).into_owned()
}

/// `std::str::from_utf8`: the string that the bytes encode, or nothing if they are not UTF-8.
#[verifier::external_body]
pub(crate) fn from_utf8(bytes: &[u8]) -> (r: Option<&str>)
    ensures
        r is Some <==> valid_utf8(bytes@),
        r matches Some(s) ==> s@ == decode_utf8(bytes@),
{
    std::str::from_utf8(bytes).ok()
}

/// `p` is how `s` begins.
pub open spec fn starts_with(s: Seq<char>, p: Seq<char>) -> bool {
    p.len() <= s.len() && s.take(p.len() as int) == p
}

/// Whether `s` begins with `p` and, if so, which character follows.
pub(crate) fn after_prefix(s: &str, p: &str) -> (r: Option<Option<char>>)
    ensures
        r is Some <==> starts_with(s@, p@),
        r matches Some(next) ==> next == (if s@.len() > p@.len() {
            Some(s@[p@.len() as int])
        } else {
            None::<char>
        }),
{
    let mut a = s.chars();
    let mut b = p.chars();
    let ghost mut n: int = 0;
    assert(s@.skip(0) =~= s@);
    assert(p@.skip(0) =~= p@);
    loop
        invariant
            0 <= n <= p@.len(),
            n <= s@.len(),
            s@.take(n) == p@.take(n),
            vstd::std_specs::iter::IteratorSpec::remaining(&a) == s@.skip(n),
            vstd::std_specs::iter::IteratorSpec::remaining(&b) == p@.skip(n),
            vstd::std_specs::iter::IteratorSpec::obeys_prophetic_iter_laws(&a),
            vstd::std_specs::iter::IteratorSpec::obeys_prophetic_iter_laws(&b),
        decreases p@.len() - n,
    {
        match b.next() {
            None => {
                assert(n == p@.len());
                assert(p@.take(n) =~= p@);
                let next = a.next();
                return Some(next);
            },
            Some(want) => {
                match a.next() {
                    None => {
                        return None;
                    },
                    Some(got) => {
                        if got != want {
                            assert(s@[n] != p@[n]);
                            assert(starts_with(s@, p@) ==> s@.take(p@.len() as int)[n] == s@[n]);
                            return None;
                        }
                    },
                }
                proof {
                    assert(s@.take(n + 1) =~= s@.take(n).push(s@[n]));
                    assert(p@.take(n + 1) =~= p@.take(n).push(p@[n]));
                    assert(s@.skip(n).drop_first() =~= s@.skip(n + 1));
                    assert(p@.skip(n).drop_first() =~= p@.skip(n + 1));
                    n = n + 1;
                }
            },
        }
    }
}

/// The strings of a list.
pub open spec fn views(list: Seq<String>) -> Seq<Seq<char>> {
    Seq::new(list.len(), |i: int| list[i]@)
}

/// The same string, character by character.
pub(crate) fn same_text(a: &str, b: &str) -> (r: bool)
    ensures
        r == (a@ == b@),
{
    match after_prefix(a, b) {
        Some(None) => {
            assert(a@.take(b@.len() as int) =~= a@);
            true
        },
        _ => {
            assert(a@ == b@ ==> a@.take(b@.len() as int) =~= b@);
            false
        },
    }
}

/// Whether the last character of `s` is `c`.
pub(crate) fn ends_with(s: &str, c: char) -> (r: bool)
    ensures
        r == (s@.len() > 0 && s@.last() == c),
{
    let mut it = s.chars();
    let mut r: bool = false;
    let ghost mut n: int = 0;
    assert(s@.skip(0) =~= s@);
    loop
        invariant
            0 <= n <= s@.len(),
            vstd::std_specs::iter::IteratorSpec::remaining(&it) == s@.skip(n),
            vstd::std_specs::iter::IteratorSpec::obeys_prophetic_iter_laws(&it),
            r == (n > 0 && s@[n - 1] == c),
        decreases s@.len() - n,
    {
        match it.next() {
            None => {
                return r;
            },
            Some(got) => {
                r = got == c;
                proof {
                    assert(s@.skip(n).drop_first() =~= s@.skip(n + 1));
                    n = n + 1;
                }
            },
        }
    }
}

/// Whether `s` is one of the strings of `list`.
pub(crate) fn is_listed(list: &Vec<String>, s: &str) -> (r: bool)
    ensures
        r == views(list@).contains(s@),
{
    let mut i: usize = 0;
    while i < list.len()
        invariant
            i <= list@.len(),
            forall|k: int| 0 <= k < i ==> (#[trigger] views(list@)[k]) != s@,
        decreases list@.len() - i,
    {
        assert(views(list@)[i as int] == list@[i as int]@);
        if same_text(list[i].as_str(), s) {
            return true;
        }
        i = i + 1;
    }
    false
}

/// The lowercase forms of strings.
pub open spec fn lowercase_all(list: Seq<Seq<char>>) -> Seq<Seq<char>> {
    Seq::new(list.len(), |i: int| lowercase(list[i]))
}

/// The strings of `list` in lowercase.
pub(crate) fn to_lowercase_all(list: &Vec<String>) -> (r: Vec<String>)
    ensures
        views(r@) == lowercase_all(views(list@)),
{
    let mut r: Vec<String> = Vec::new();
    let mut i: usize = 0;
    while i < list.len()
        invariant
            i <= list@.len(),
            r@.len() == i,
            forall|k: int| 0 <= k < i ==> (#[trigger] r@[k])@ == lowercase(list@[k]@),
        decreases list@.len() - i,
    {
        r.push(list[i].as_str().to_lowercase());
        i = i + 1;
    }
    assert(views(r@) =~= lowercase_all(views(list@)));
    r
}

/// The parts of `s` between the separators; one more than there are separators.
pub open spec fn pieces(s: Seq<char>, sep: char) -> Seq<Seq<char>>
    decreases s.len(),
{
    if s.len() == 0 {
        seq![Seq::<char>::empty()]
    } else {
        let before = pieces(s.drop_last(), sep);
        if s.last() == sep {
            before.push(Seq::<char>::empty())
        } else {
            before.drop_last().push(before.last().push(s.last()))
        }
    }
}

proof fn lemma_pieces_nonempty(s: Seq<char>, sep: char)
    ensures
        pieces(s, sep).len() > 0,
    decreases s.len(),
{
    if s.len() > 0 {
        lemma_pieces_nonempty(s.drop_last(), sep);
    }
}

/// What has no separator is one piece.
pub proof fn one_piece(s: Seq<char>, sep: char)
    requires
        !s.contains(sep),
    ensures
        pieces(s, sep) == seq![s],
    decreases s.len(),
{
    if s.len() == 0 {
        assert(s =~= Seq::<char>::empty());
    } else {
        let init = s.drop_last();
        assert(!init.contains(sep)) by {
            if init.contains(sep) {
                let k = choose|k: int| 0 <= k < init.len() && init[k] == sep;
                assert(s[k] == sep);
            }
        }
        one_piece(init, sep);
        assert(s[s.len() - 1] != sep);
        assert(init.push(s.last()) =~= s);
        assert(pieces(s, sep) =~= seq![s]);
    }
}

/// A separator parts a string: its pieces are those in front of the separator, and then those behind
/// it.
pub proof fn pieces_part_at_a_separator(a: Seq<char>, sep: char, b: Seq<char>)
    ensures
        pieces(a + seq![sep] + b, sep) == pieces(a, sep) + pieces(b, sep),
    decreases b.len(),
{
    let s = a + seq![sep] + b;
    lemma_pieces_nonempty(b, sep);
    if b.len() == 0 {
        assert(s.drop_last() =~= a);
        assert(pieces(s, sep) =~= pieces(a, sep) + pieces(b, sep));
    } else {
        let c = b.drop_last();
        pieces_part_at_a_separator(a, sep, c);
        lemma_pieces_nonempty(c, sep);
        assert(s.drop_last() =~= a + seq![sep] + c);
        assert(s.last() == b.last());
        let before = pieces(a, sep) + pieces(c, sep);
        assert(before.last() == pieces(c, sep).last());
        assert(pieces(s, sep) =~= pieces(a, sep) + pieces(b, sep));
    }
}

/// The parts of strings that differ in letter case at most do so, too.
pub proof fn alike_in_pieces(a: Seq<char>, b: Seq<char>, sep: char)
    requires
        alike(a, b),
        sep == '/' || sep == '.',
    ensures
        pieces(a, sep).len() == pieces(b, sep).len() > 0,
        forall|i: int|
            0 <= i < pieces(a, sep).len() ==> alike(
                #[trigger] pieces(a, sep)[i],
                pieces(b, sep)[i],
            ),
    decreases a.len(),
{
    if a.len() > 0 {
        let x = a.drop_last();
        let y = b.drop_last();
        assert forall|i: int| 0 <= i < x.len() implies ascii_char(#[trigger] x[i]) && ascii_char(
            y[i],
        ) && ascii_lower(x[i]) == ascii_lower(y[i]) by {
            assert(ascii_lower(a[i]) == ascii_lower(b[i]));
        }
        alike_in_pieces(x, y, sep);
        let m = a.len() - 1;
        assert(ascii_lower(a[m]) == ascii_lower(b[m]));
        assert(a.last() == sep <==> b.last() == sep);
        let n = pieces(x, sep).len() - 1;
        assert(alike(pieces(x, sep)[n], pieces(y, sep)[n]));
    }
}

/// The parts of `s` between the separators.
pub(crate) fn split_on(s: &str, sep: char) -> (r: Vec<String>)
    ensures
        views(r@) == pieces(s@, sep),
{
    let mut done: Vec<String> = Vec::new();
    let mut piece: String = String::new();
    let mut it = s.chars();
    let ghost mut n: int = 0;
    assert(s@.skip(0) =~= s@);
    assert(views(done@).push(piece@) =~= pieces(s@.take(0), sep));
    loop
        invariant
            0 <= n <= s@.len(),
            vstd::std_specs::iter::IteratorSpec::remaining(&it) == s@.skip(n),
            vstd::std_specs::iter::IteratorSpec::obeys_prophetic_iter_laws(&it),
            views(done@).push(piece@) == pieces(s@.take(n), sep),
        decreases s@.len() - n,
    {
        match it.next() {
            None => {
                assert(s@.take(n) =~= s@);
                let ghost before = views(done@);
                done.push(piece);
                assert(views(done@) =~= before.push(piece@));
                return done;
            },
            Some(c) => {
                let ghost before = views(done@);
                let ghost cut = piece@;
                proof {
                    assert(s@.take(n + 1).drop_last() =~= s@.take(n));
                    assert(s@.skip(n).drop_first() =~= s@.skip(n + 1));
                    assert(before.push(cut).drop_last() =~= before);
                    n = n + 1;
                }
                if c == sep {
                    done.push(piece);
                    piece = String::new();
                    assert(views(done@) =~= before.push(cut));
                } else {
                    piece.push(c);
                }
            },
        }
    }
}

/// The characters with the Unicode property White_Space.
pub open spec fn white_space(c: char) -> bool {
    let v = c as u32;
    ||| 0x9 <= v <= 0xd
    ||| v == 0x20
    ||| v == 0x85
    ||| v == 0xa0
    ||| v == 0x1680
    ||| 0x2000 <= v <= 0x200a
    ||| v == 0x2028
    ||| v == 0x2029
    ||| v == 0x202f
    ||| v == 0x205f
    ||| v == 0x3000
}

/// Whether `c` is white space.
pub fn is_white_space(c: char) -> (r: bool)
    ensures
        r == white_space(c),
{
    let v: u32 = c as u32;
    (0x9 <= v && v <= 0xd) || v == 0x20 || v == 0x85 || v == 0xa0 || v == 0x1680 || (0x2000 <= v
        && v <= 0x200a) || v == 0x2028 || v == 0x2029 || v == 0x202f || v == 0x205f || v == 0x3000
}

/// The longest parts of `s` without white space.
pub open spec fn words(s: Seq<char>) -> Seq<Seq<char>>
    decreases s.len(),
{
    if s.len() == 0 {
        Seq::<Seq<char>>::empty()
    } else {
        let init = s.drop_last();
        let before = words(init);
        if white_space(s.last()) {
            before
        } else if init.len() > 0 && !white_space(init.last()) {
            before.drop_last().push(before.last().push(s.last()))
        } else {
            before.push(seq![s.last()])
        }
    }
}

/// `s` has no white space.
pub open spec fn solid(s: Seq<char>) -> bool {
    forall|i: int| 0 <= i < s.len() ==> !white_space(#[trigger] s[i])
}

/// What has no white space is one word, unless it is empty: then there is none.
pub proof fn one_word(s: Seq<char>)
    requires
        solid(s),
    ensures
        words(s) == (if s.len() == 0 {
            Seq::<Seq<char>>::empty()
        } else {
            seq![s]
        }),
    decreases s.len(),
{
    if s.len() > 0 {
        let init = s.drop_last();
        assert(!white_space(s[s.len() - 1]));
        assert forall|i: int| 0 <= i < init.len() implies !white_space(#[trigger] init[i]) by {
            assert(init[i] == s[i]);
        }
        one_word(init);
        if init.len() > 0 {
            assert(!white_space(init[init.len() - 1]));
            assert(init.push(s.last()) =~= s);
        } else {
            assert(seq![s.last()] =~= s);
        }
        assert(words(s) =~= seq![s]);
    }
}

proof fn lemma_open_word(s: Seq<char>)
    requires
        s.len() > 0,
        !white_space(s.last()),
    ensures
        words(s).len() > 0,
    decreases s.len(),
{
    let init = s.drop_last();
    if init.len() > 0 && !white_space(init.last()) {
        lemma_open_word(init);
    }
}

/// White space parts a string: its words are those in front of it, and then those behind it.
pub proof fn words_part_at_white_space(a: Seq<char>, c: char, b: Seq<char>)
    requires
        white_space(c),
    ensures
        words(a + seq![c] + b) == words(a) + words(b),
    decreases b.len(),
{
    let s = a + seq![c] + b;
    if b.len() == 0 {
        assert(s.drop_last() =~= a);
        assert(words(s) =~= words(a) + words(b));
    } else {
        let d = b.drop_last();
        words_part_at_white_space(a, c, d);
        assert(s.drop_last() =~= a + seq![c] + d);
        assert(s.last() == b.last());
        let init = s.drop_last();
        if d.len() > 0 {
            assert(init.last() == d.last());
            if !white_space(d.last()) {
                lemma_open_word(d);
                assert((words(a) + words(d)).last() == words(d).last());
            }
        } else {
            assert(init.last() == c);
        }
        assert(words(s) =~= words(a) + words(b));
    }
}

/// The longest parts of `s` without white space.
pub(crate) fn split_words(s: &str) -> (r: Vec<String>)
    ensures
        views(r@) == words(s@),
{
    let mut done: Vec<String> = Vec::new();
    let mut word: String = String::new();
    let mut open: bool = false;
    let mut it = s.chars();
    let ghost mut n: int = 0;
    assert(s@.skip(0) =~= s@);
    assert(views(done@) =~= words(s@.take(0)));
    loop
        invariant
            0 <= n <= s@.len(),
            vstd::std_specs::iter::IteratorSpec::remaining(&it) == s@.skip(n),
            vstd::std_specs::iter::IteratorSpec::obeys_prophetic_iter_laws(&it),
            open == (n > 0 && !white_space(s@[n - 1])),
            open ==> views(done@).push(word@) == words(s@.take(n)),
            !open ==> views(done@) == words(s@.take(n)) && word@.len() == 0,
        decreases s@.len() - n,
    {
        match it.next() {
            None => {
                assert(s@.take(n) =~= s@);
                if open {
                    let ghost before = views(done@);
                    done.push(word);
                    assert(views(done@) =~= before.push(word@));
                }
                return done;
            },
            Some(c) => {
                let ghost before = views(done@);
                let ghost cut = word@;
                proof {
                    assert(s@.take(n + 1).drop_last() =~= s@.take(n));
                    assert(s@.skip(n).drop_first() =~= s@.skip(n + 1));
                    assert(before.push(cut).drop_last() =~= before);
                    assert(n > 0 ==> s@.take(n).last() == s@[n - 1]);
                    n = n + 1;
                }
                if is_white_space(c) {
                    if open {
                        done.push(word);
                        word = String::new();
                        assert(views(done@) =~= before.push(cut));
                    }
                    open = false;
                } else {
                    word.push(c);
                    open = true;
                    assert(cut.len() == 0 ==> word@ =~= seq![c]);
                }
            },
        }
    }
}

/// The digits of `n` in base ten.
pub open spec fn decimal(n: nat) -> Seq<char>
    decreases n,
{
    let digit = (('0' as int) + n % 10) as char;
    if n < 10 {
        seq![digit]
    } else {
        decimal(n / 10).push(digit)
    }
}

/// The number that decimal digits stand for.
pub open spec fn number_of(digits: Seq<char>) -> int
    decreases digits.len(),
{
    if digits.len() == 0 {
        0
    } else {
        10 * number_of(digits.drop_last()) + (digits.last() as int - '0' as int)
    }
}

/// The decimal form of a number stands for it, has digits only, and does not begin with a zero unless
/// that is all.
pub proof fn decimal_reads_back(n: nat)
    ensures
        number_of(decimal(n)) == n,
        decimal(n).len() > 0,
        forall|i: int| 0 <= i < decimal(n).len() ==> '0' <= #[trigger] decimal(n)[i] <= '9',
        decimal(n)[0] == '0' ==> decimal(n).len() == 1,
        n > 0 ==> decimal(n)[0] != '0',
    decreases n,
{
    let d = decimal(n);
    if n >= 10 {
        decimal_reads_back(n / 10);
        assert(d.drop_last() =~= decimal(n / 10));
    } else {
        assert(d.drop_last() =~= Seq::<char>::empty());
        assert(number_of(d.drop_last()) == 0);
    }
}

/// The decimal form of `n`.
pub(crate) fn to_decimal(n: u32) -> (r: String)
    ensures
        r@ == decimal(n as nat),
    decreases n,
{
    let digit: char = (48u8 + (n % 10) as u8) as char;
    let mut r: String = if n < 10 {
        String::new()
    } else {
        to_decimal(n / 10)
    };
    r.push(digit);
    assert(n < 10 ==> r@ =~= seq![digit]);
    r
}

} // verus!
