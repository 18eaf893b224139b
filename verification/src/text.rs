//! Low-level text utilities: whitespace classification, line and token
//! splitting, and integer literals, each with a specification-level
//! counterpart that the executable functions are proved against.

use vstd::prelude::*;
use vstd::string::StrSliceExecFns;

verus! {

/// The whitespace characters recognised when tokenizing.
pub open spec fn is_space(c: char) -> bool {
    c == ' ' || c == '\t' || c == '\r' || c == '\n' || c == '\u{b}' || c == '\u{c}'
}

/// Executable counterpart of [`is_space`].
pub fn is_space_char(c: char) -> (r: bool)
    ensures
        r == is_space(c),
{
    c == ' ' || c == '\t' || c == '\r' || c == '\n' || c == '\u{b}' || c == '\u{c}'
}

/// The predicate that separates tokens within a line.
pub open spec fn space_pred() -> spec_fn(char) -> bool {
    |c: char| is_space(c)
}

/// The predicate that separates lines within a stream.
pub open spec fn newline_pred() -> spec_fn(char) -> bool {
    |c: char| c == '\n'
}

/// A sequence kept only if it is non-empty.
pub open spec fn nonempty_pred<A>() -> spec_fn(Seq<A>) -> bool {
    |t: Seq<A>| t.len() > 0
}

/// Split `s` at every character satisfying `sep`. The separators themselves
/// are dropped; the pieces between them (possibly empty) are kept, so the
/// result always has one more piece than there are separators.
pub open spec fn split_by(s: Seq<char>, sep: spec_fn(char) -> bool) -> Seq<Seq<char>>
    decreases s.len(),
{
    if s.len() == 0 {
        seq![Seq::<char>::empty()]
    } else if sep(s[0]) {
        seq![Seq::<char>::empty()] + split_by(s.drop_first(), sep)
    } else {
        let rest = split_by(s.drop_first(), sep);
        seq![seq![s[0]] + rest[0]] + rest.drop_first()
    }
}

pub proof fn lemma_split_by_len(s: Seq<char>, sep: spec_fn(char) -> bool)
    ensures
        split_by(s, sep).len() >= 1,
    decreases s.len(),
{
    if s.len() > 0 {
        lemma_split_by_len(s.drop_first(), sep);
    }
}

/// Appending one character extends the last piece, or opens a new empty
/// piece when the character is a separator.
pub proof fn lemma_split_by_push(s: Seq<char>, sep: spec_fn(char) -> bool, c: char)
    ensures
        sep(c) ==> split_by(s.push(c), sep) == split_by(s, sep).push(Seq::<char>::empty()),
        !sep(c) ==> split_by(s.push(c), sep) == split_by(s, sep).update(
            split_by(s, sep).len() - 1,
            split_by(s, sep).last().push(c),
        ),
    decreases s.len(),
{
    lemma_split_by_len(s, sep);
    reveal_with_fuel(split_by, 3);
    if s.len() == 0 {
        assert(s.push(c)[0] == c);
        assert(s.push(c).drop_first() =~= Seq::<char>::empty());
        if sep(c) {
            assert(split_by(s.push(c), sep) =~~= split_by(s, sep).push(Seq::<char>::empty()));
        } else {
            assert(split_by(s.push(c), sep) =~~= split_by(s, sep).update(
                split_by(s, sep).len() - 1,
                split_by(s, sep).last().push(c),
            ));
        }
    } else {
        let t = s.drop_first();
        assert(s.push(c)[0] == s[0]);
        assert(s.push(c).drop_first() =~= t.push(c));
        lemma_split_by_push(t, sep, c);
        lemma_split_by_len(t, sep);
        let rest = split_by(t, sep);
        let restc = split_by(t.push(c), sep);
        if sep(s[0]) {
            if sep(c) {
                assert(split_by(s.push(c), sep) =~~= split_by(s, sep).push(Seq::<char>::empty()));
            } else {
                assert(split_by(s.push(c), sep) =~~= split_by(s, sep).update(
                    split_by(s, sep).len() - 1,
                    split_by(s, sep).last().push(c),
                ));
            }
        } else {
            if sep(c) {
                assert(restc[0] == rest[0]);
                assert(split_by(s.push(c), sep) =~~= split_by(s, sep).push(Seq::<char>::empty()));
            } else {
                if rest.len() == 1 {
                    assert(restc[0] == rest[0].push(c));
                    assert(split_by(s.push(c), sep) =~~= split_by(s, sep).update(
                        split_by(s, sep).len() - 1,
                        split_by(s, sep).last().push(c),
                    ));
                } else {
                    assert(restc[0] == rest[0]);
                    assert(split_by(s.push(c), sep) =~~= split_by(s, sep).update(
                        split_by(s, sep).len() - 1,
                        split_by(s, sep).last().push(c),
                    ));
                }
            }
        }
    }
}

/// Filtering after a push keeps the new element exactly when it satisfies
/// the predicate.
pub proof fn lemma_filter_push<A>(a: Seq<A>, x: A, pred: spec_fn(A) -> bool)
    ensures
        pred(x) ==> a.push(x).filter(pred) == a.filter(pred).push(x),
        !pred(x) ==> a.push(x).filter(pred) == a.filter(pred),
{
    reveal_with_fuel(Seq::filter, 2);
    assert(a.push(x).drop_last() =~= a);
    assert(a.push(x).last() == x);
}

/// Mapping after a push maps the new element.
pub proof fn lemma_map_values_push<A, B>(a: Seq<A>, x: A, f: spec_fn(A) -> B)
    ensures
        a.push(x).map_values(f) == a.map_values(f).push(f(x)),
{
    assert(a.push(x).map_values(f) =~= a.map_values(f).push(f(x)));
}

/// The set of a sequence after a push is the set before, plus the element.
pub proof fn lemma_to_set_push(s: Seq<char>, c: char)
    ensures
        s.push(c).to_set() == s.to_set().insert(c),
{
    assert forall|x: char| s.push(c).to_set().contains(x) implies s.to_set().insert(c).contains(
        x,
    ) by {
        let i = choose|i: int| 0 <= i < s.push(c).len() && s.push(c)[i] == x;
        if i < s.len() {
            assert(s[i] == x);
        }
    }
    assert forall|x: char| s.to_set().insert(c).contains(x) implies s.push(c).to_set().contains(
        x,
    ) by {
        if s.to_set().contains(x) {
            let i = choose|i: int| 0 <= i < s.len() && s[i] == x;
            assert(s.push(c)[i] == x);
        } else {
            assert(s.push(c)[s.len() as int] == c);
        }
    }
    assert(s.push(c).to_set() =~= s.to_set().insert(c));
}

/// The views of a sequence of character vectors.
pub open spec fn views_of(s: Seq<Vec<char>>) -> Seq<Seq<char>> {
    s.map_values(|v: Vec<char>| v@)
}

/// The views of a sequence of token lists.
pub open spec fn token_views(s: Seq<Vec<Vec<char>>>) -> Seq<Seq<Seq<char>>> {
    s.map_values(|v: Vec<Vec<char>>| views_of(v@))
}

/// The characters of a string slice, as a vector.
pub fn chars_of(s: &str) -> (r: Vec<char>)
    ensures
        r@ == s@,
{
    let n = s.unicode_len();
    let mut v: Vec<char> = Vec::new();
    let mut i: usize = 0;
    while i < n
        invariant
            i <= n,
            n == s@.len(),
            v@ == s@.take(i as int),
        decreases n - i,
    {
        let c = s.get_char(i);
        v.push(c);
        proof {
            assert(s@.take(i as int).push(s@[i as int]) =~= s@.take(i as int + 1));
        }
        i = i + 1;
    }
    proof {
        assert(s@.take(n as int) =~= s@);
    }
    v
}

/// Split a character vector into its lines; the pieces between newline
/// characters are all kept, even when empty.
pub fn split_lines(s: &Vec<char>) -> (r: Vec<Vec<char>>)
    ensures
        views_of(r@) == split_by(s@, newline_pred()),
{
    let mut out: Vec<Vec<char>> = Vec::new();
    let mut cur: Vec<char> = Vec::new();
    let mut i: usize = 0;
    proof {
        assert(s@.take(0) =~= Seq::<char>::empty());
        assert(split_by(s@.take(0), newline_pred()) =~= views_of(out@).push(cur@));
    }
    while i < s.len()
        invariant
            i <= s@.len(),
            split_by(s@.take(i as int), newline_pred()) == views_of(out@).push(cur@),
        decreases s@.len() - i,
    {
        let ghost pre_out = out@;
        let ghost pre_cur = cur@;
        proof {
            lemma_split_by_push(s@.take(i as int), newline_pred(), s@[i as int]);
            assert(s@.take(i as int).push(s@[i as int]) =~= s@.take(i as int + 1));
        }
        let c = s[i];
        if c == '\n' {
            out.push(cur);
            cur = Vec::new();
            proof {
                assert(views_of(out@).push(cur@) =~~= views_of(pre_out).push(pre_cur).push(
                    Seq::<char>::empty(),
                ));
            }
        } else {
            cur.push(c);
            proof {
                let prev = views_of(pre_out).push(pre_cur);
                assert(views_of(out@).push(cur@) =~~= prev.update(
                    prev.len() - 1,
                    prev.last().push(c),
                ));
            }
        }
        i = i + 1;
    }
    proof {
        assert(s@.take(s@.len() as int) =~= s@);
    }
    out.push(cur);
    proof {
        assert(views_of(out@) =~~= split_by(s@, newline_pred()));
    }
    out
}

/// The tokens of a line: the maximal runs of non-whitespace characters,
/// in order. Runs of whitespace separate tokens and leave no empty ones.
pub open spec fn tokens_of(s: Seq<char>) -> Seq<Seq<char>> {
    split_by(s, space_pred()).filter(nonempty_pred())
}

/// A decimal digit.
pub open spec fn is_digit(c: char) -> bool {
    48 <= c as u32 && c as u32 <= 57
}

/// The numeric value of a decimal digit.
pub open spec fn digit_value(c: char) -> int {
    c as u32 - 48
}

pub open spec fn all_digits(t: Seq<char>) -> bool {
    forall|i: int| 0 <= i < t.len() ==> is_digit(#[trigger] t[i])
}

/// The value of a sequence of decimal digits, most significant first.
pub open spec fn digits_value(t: Seq<char>) -> int
    decreases t.len(),
{
    if t.len() == 0 {
        0
    } else {
        digits_value(t.drop_last()) * 10 + digit_value(t.last())
    }
}

/// The digits of an integer literal: everything after an optional sign.
pub open spec fn unsigned_part(t: Seq<char>) -> Seq<char> {
    if t.len() > 0 && (t[0] == '+' || t[0] == '-') {
        t.drop_first()
    } else {
        t
    }
}

pub open spec fn is_negative_literal(t: Seq<char>) -> bool {
    t.len() > 0 && t[0] == '-'
}

/// Whether `t` is a decimal literal that a 32-bit signed integer can hold:
/// an optional sign followed by one or more digits, within range.
pub open spec fn is_i32_literal(t: Seq<char>) -> bool {
    let d = unsigned_part(t);
    &&& d.len() > 0
    &&& all_digits(d)
    &&& (is_negative_literal(t) ==> digits_value(d) <= 0x8000_0000)
    &&& (!is_negative_literal(t) ==> digits_value(d) <= 0x7fff_ffff)
}

/// The value of a 32-bit integer literal.
pub open spec fn i32_literal_value(t: Seq<char>) -> int {
    if is_negative_literal(t) {
        -digits_value(unsigned_part(t))
    } else {
        digits_value(unsigned_part(t))
    }
}

pub proof fn lemma_digits_value_nonneg(t: Seq<char>)
    requires
        all_digits(t),
    ensures
        digits_value(t) >= 0,
    decreases t.len(),
{
    if t.len() > 0 {
        assert(all_digits(t.drop_last())) by {
            assert forall|i: int| 0 <= i < t.drop_last().len() implies is_digit(
                #[trigger] t.drop_last()[i],
            ) by {
                assert(t.drop_last()[i] == t[i]);
            }
        }
        lemma_digits_value_nonneg(t.drop_last());
    }
}

/// Reading more digits can only increase the value.
pub proof fn lemma_digits_value_grows(t: Seq<char>, k: int)
    requires
        all_digits(t),
        0 <= k <= t.len(),
    ensures
        digits_value(t.take(k)) <= digits_value(t),
    decreases t.len() - k,
{
    if k == t.len() {
        assert(t.take(k) =~= t);
    } else {
        assert(t.take(k + 1).drop_last() =~= t.take(k));
        assert(t.take(k + 1).last() == t[k]);
        assert(all_digits(t.take(k))) by {
            assert forall|i: int| 0 <= i < t.take(k).len() implies is_digit(
                #[trigger] t.take(k)[i],
            ) by {
                assert(t.take(k)[i] == t[i]);
            }
        }
        lemma_digits_value_nonneg(t.take(k));
        lemma_digits_value_grows(t, k + 1);
    }
}

/// Parse a token as a 32-bit signed integer; `None` exactly when the token
/// is not an in-range decimal literal.
pub fn parse_int(t: &Vec<char>) -> (r: Option<i32>)
    ensures
        r is Some <==> is_i32_literal(t@),
        r matches Some(v) ==> v as int == i32_literal_value(t@),
{
    let start: usize = if t.len() > 0 && (t[0] == '+' || t[0] == '-') {
        1
    } else {
        0
    };
    let neg: bool = t.len() > 0 && t[0] == '-';
    let ghost d = unsigned_part(t@);
    proof {
        assert(d =~= t@.skip(start as int));
    }
    if start == t.len() {
        return None;
    }
    let mut acc: u64 = 0;
    let mut i: usize = start;
    proof {
        assert(d.take(0) =~= Seq::<char>::empty());
    }
    while i < t.len()
        invariant
            start <= i <= t@.len(),
            d == t@.skip(start as int),
            d.len() == t@.len() - start,
            d == unsigned_part(t@),
            neg == is_negative_literal(t@),
            forall|j: int| 0 <= j < i - start ==> is_digit(#[trigger] d[j]),
            acc as int == digits_value(d.take(i - start)),
            acc <= 0x8000_0000,
        decreases t@.len() - i,
    {
        let c = t[i];
        let u: u32 = c as u32;
        if u < 48 || u > 57 {
            proof {
                assert(d[i - start] == t@[i as int]);
                assert(!is_digit(d[i - start]));
            }
            return None;
        }
        acc = acc * 10 + ((u - 48) as u64);
        proof {
            assert(d.take(i - start + 1).drop_last() =~= d.take(i - start));
            assert(d.take(i - start + 1).last() == d[i - start]);
            assert(d[i - start] == t@[i as int]);
        }
        if acc > 0x8000_0000 {
            proof {
                if all_digits(d) {
                    lemma_digits_value_grows(d, i + 1 - start);
                }
            }
            return None;
        }
        i = i + 1;
    }
    proof {
        assert(d.take(d.len() as int) =~= d);
    }
    if neg {
        let v: i64 = -(acc as i64);
        proof {
            assert(i32::MIN <= v <= i32::MAX);
        }
        Some(v as i32)
    } else {
        if acc > 0x7fff_ffff {
            return None;
        }
        Some(acc as i32)
    }
}

/// Split a line into its whitespace-separated tokens.
pub fn tokenize(s: &Vec<char>) -> (r: Vec<Vec<char>>)
    ensures
        views_of(r@) == tokens_of(s@),
{
    let mut out: Vec<Vec<char>> = Vec::new();
    let mut cur: Vec<char> = Vec::new();
    let mut i: usize = 0;
    proof {
        assert(s@.take(0) =~= Seq::<char>::empty());
        assert(split_by(s@.take(0), space_pred()).drop_last().filter(nonempty_pred()) =~~=
            views_of(out@));
    }
    while i < s.len()
        invariant
            i <= s@.len(),
            views_of(out@) == split_by(s@.take(i as int), space_pred()).drop_last().filter(
                nonempty_pred(),
            ),
            cur@ == split_by(s@.take(i as int), space_pred()).last(),
        decreases s@.len() - i,
    {
        let ghost sp = split_by(s@.take(i as int), space_pred());
        let ghost pre_out = out@;
        let ghost pre_cur = cur@;
        proof {
            lemma_split_by_len(s@.take(i as int), space_pred());
            lemma_split_by_push(s@.take(i as int), space_pred(), s@[i as int]);
            assert(s@.take(i as int).push(s@[i as int]) =~= s@.take(i as int + 1));
        }
        let c = s[i];
        if is_space_char(c) {
            proof {
                lemma_filter_push(sp.drop_last(), sp.last(), nonempty_pred());
                assert(sp.drop_last().push(sp.last()) =~= sp);
                assert(sp.push(Seq::<char>::empty()).drop_last() =~= sp);
            }
            if cur.len() > 0 {
                out.push(cur);
                proof {
                    assert(views_of(out@) =~~= views_of(pre_out).push(pre_cur));
                }
            }
            cur = Vec::new();
        } else {
            cur.push(c);
            proof {
                assert(sp.update(sp.len() - 1, sp.last().push(c)).drop_last() =~= sp.drop_last());
            }
        }
        i = i + 1;
    }
    proof {
        assert(s@.take(s@.len() as int) =~= s@);
        let sp = split_by(s@, space_pred());
        lemma_split_by_len(s@, space_pred());
        lemma_filter_push(sp.drop_last(), sp.last(), nonempty_pred());
        assert(sp.drop_last().push(sp.last()) =~= sp);
    }
    if cur.len() > 0 {
        let ghost pre_out = out@;
        let ghost pre_cur = cur@;
        out.push(cur);
        proof {
            assert(views_of(out@) =~~= views_of(pre_out).push(pre_cur));
        }
    }
    out
}

} // verus!
