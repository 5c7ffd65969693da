//! The on-disk form of the collection, and the whole-collection codec.
//!
//! The backing file always holds one serialized sequence of records:
//! `[]`, or `[{"id":N,"name":"S","species":"S","age":N,"created_at":N},...]`
//! with no added whitespace, numbers in plain decimal and strings verbatim
//! (records only carry [`crate::bird::plain`] strings, so no escapes are
//! needed).  [`render_db`] produces exactly this form and [`parse_db`]
//! accepts exactly this form: [`lemma_save_load_round_trip`] proves that
//! parsing a rendered collection gives the collection back, and
//! [`lemma_load_save_round_trip`] proves that rendering a parsed
//! collection reproduces the file content unchanged — saving what was
//! loaded is a no-op.  Content that does not parse is treated as the
//! empty collection by [`load_db`], never as a failure.
//!
//! Reading and writing the file itself is the caller's business; this
//! module only maps collections to file content and back.

use vstd::prelude::*;

use crate::bird::{Bird, BirdView, plain, plain_char, wf_bird, wf_birds};

verus! {

/// The error taxonomy of the store.  The codec itself never fails — a
/// malformed file reads as empty — so these arise only where a caller's
/// I/O does.
#[derive(Copy, Clone, Debug, PartialEq, Eq, Structural)]
pub enum Error {
    ReadDBError,
    ParseDBError,
}

impl Error {
    /// A short description, for callers that show errors.
    pub fn describe(self) -> (s: &'static str)
        ensures
            self is ReadDBError ==> s@ == "error reading the DB file"@,
            self is ParseDBError ==> s@ == "error parsing the DB file"@,
    {
        match self {
            Error::ReadDBError => "error reading the DB file",
            Error::ParseDBError => "error parsing the DB file",
        }
    }
}

// ------------------------------------------------------------------
// Decimal numbers.
// ------------------------------------------------------------------
/// The ten decimal digit characters (code points 48 through 57).
pub open spec fn is_digit(c: char) -> bool {
    48 <= c as u32 <= 57
}

pub open spec fn digit_char(d: int) -> char {
    if d == 0 {
        '0'
    } else if d == 1 {
        '1'
    } else if d == 2 {
        '2'
    } else if d == 3 {
        '3'
    } else if d == 4 {
        '4'
    } else if d == 5 {
        '5'
    } else if d == 6 {
        '6'
    } else if d == 7 {
        '7'
    } else if d == 8 {
        '8'
    } else {
        '9'
    }
}

pub open spec fn digit_val(c: char) -> int {
    c as u32 - 48
}

/// The decimal form of `n`, most significant digit first, no leading
/// zeros (a single `0` for zero).
pub open spec fn dec(n: nat) -> Seq<char>
    decreases n,
{
    if n < 10 {
        seq![digit_char(n as int)]
    } else {
        dec(n / 10).push(digit_char((n % 10) as int))
    }
}

/// The value of a digit string.
pub open spec fn val(s: Seq<char>) -> int
    decreases s.len(),
{
    if s.len() == 0 {
        0
    } else {
        10 * val(s.drop_last()) + digit_val(s.last())
    }
}

pub open spec fn all_digits(s: Seq<char>) -> bool {
    forall|i: int| 0 <= i < s.len() ==> is_digit(#[trigger] s[i])
}

/// Each digit character carries its digit's value and is a digit.
proof fn lemma_digit_char(d: int)
    requires
        0 <= d < 10,
    ensures
        digit_val(digit_char(d)) == d,
        is_digit(digit_char(d)),
        d >= 1 ==> digit_char(d) != '0',
{
    assert('0' as u32 == 48);
    assert('1' as u32 == 49);
    assert('2' as u32 == 50);
    assert('3' as u32 == 51);
    assert('4' as u32 == 52);
    assert('5' as u32 == 53);
    assert('6' as u32 == 54);
    assert('7' as u32 == 55);
    assert('8' as u32 == 56);
    assert('9' as u32 == 57);
}

proof fn lemma_dec_props(n: nat)
    ensures
        dec(n).len() >= 1,
        all_digits(dec(n)),
        val(dec(n)) == n,
        n >= 1 ==> dec(n)[0] != '0',
        n < 10 ==> dec(n).len() == 1,
    decreases n,
{
    if n < 10 {
        lemma_digit_char(n as int);
        assert(dec(n) =~= seq![digit_char(n as int)]);
        assert(dec(n).drop_last() =~= Seq::<char>::empty());
        assert(val(Seq::<char>::empty()) == 0);
        assert(val(dec(n)) == 10 * val(dec(n).drop_last()) + digit_val(dec(n).last()));
    } else {
        lemma_dec_props(n / 10);
        lemma_digit_char((n % 10) as int);
        let d = digit_char((n % 10) as int);
        assert(dec(n) =~= dec(n / 10).push(d));
        assert(dec(n).drop_last() =~= dec(n / 10));
        assert(dec(n).last() == d);
        assert(dec(n)[0] == dec(n / 10)[0]);
        assert(val(dec(n)) == 10 * val(dec(n / 10)) + digit_val(d));
        assert(10 * (n / 10) + n % 10 == n) by (nonlinear_arith);
    }
}

proof fn lemma_val_nonneg(s: Seq<char>)
    requires
        all_digits(s),
    ensures
        val(s) >= 0,
    decreases s.len(),
{
    if s.len() > 0 {
        assert(all_digits(s.drop_last()));
        lemma_val_nonneg(s.drop_last());
    }
}

/// Extending a digit string on the right never shrinks its value.
proof fn lemma_val_prefix_le(s: Seq<char>, l: int)
    requires
        all_digits(s),
        0 <= l <= s.len(),
    ensures
        val(s.take(l)) <= val(s),
    decreases s.len(),
{
    if l == s.len() {
        assert(s.take(l) =~= s);
    } else {
        assert(all_digits(s.drop_last()));
        assert(s.drop_last().take(l) =~= s.take(l));
        lemma_val_prefix_le(s.drop_last(), l);
        lemma_val_nonneg(s.drop_last());
    }
}

/// The length of the leading run of digit characters.
pub open spec fn digit_prefix_len(s: Seq<char>) -> int
    decreases s.len(),
{
    if s.len() > 0 && is_digit(s[0]) {
        1 + digit_prefix_len(s.skip(1))
    } else {
        0
    }
}

/// The digit prefix is exactly `k` when the first `k` characters are
/// digits and the next one (if any) is not.
proof fn lemma_digit_prefix_len_is(s: Seq<char>, k: int)
    requires
        0 <= k <= s.len(),
        forall|i: int| 0 <= i < k ==> is_digit(#[trigger] s[i]),
        k == s.len() || !is_digit(s[k]),
    ensures
        digit_prefix_len(s) == k,
    decreases k,
{
    if k == 0 {
    } else {
        assert(is_digit(s[0]));
        lemma_digit_prefix_len_is(s.skip(1), k - 1);
    }
}

/// The decimal parser: the longest digit prefix, rejected when empty,
/// when it has a leading zero, or when its value does not fit a `u64`.
pub open spec fn parse_num(s: Seq<char>) -> Option<(u64, Seq<char>)> {
    let k = digit_prefix_len(s);
    if k == 0 {
        Option::None
    } else if k > 1 && s[0] == '0' {
        Option::None
    } else if val(s.take(k)) > u64::MAX {
        Option::None
    } else {
        Option::Some((val(s.take(k)) as u64, s.skip(k)))
    }
}

/// Parsing picks the rendered number back out of any continuation that
/// does not begin with a digit.
proof fn lemma_parse_num_dec(n: u64, rest: Seq<char>)
    requires
        rest.len() == 0 || !is_digit(rest[0]),
    ensures
        parse_num(dec(n as nat) + rest) == Option::Some((n, rest)),
{
    let d = dec(n as nat);
    let s = d + rest;
    lemma_dec_props(n as nat);
    assert forall|i: int| 0 <= i < d.len() implies is_digit(#[trigger] s[i]) by {
        assert(s[i] == d[i]);
    }
    if d.len() < s.len() {
        assert(s[d.len() as int] == rest[0]);
    }
    lemma_digit_prefix_len_is(s, d.len() as int);
    assert(s.take(d.len() as int) =~= d);
    assert(s.skip(d.len() as int) =~= rest);
    if d.len() > 1 {
        assert(n as nat >= 1) by {
            if (n as nat) < 10 {
                assert(d.len() == 1);
            }
        }
        assert(s[0] == d[0]);
    }
}

// ------------------------------------------------------------------
// Strings.
// ------------------------------------------------------------------
/// A string as stored: its characters between two quotes.
pub open spec fn quoted(s: Seq<char>) -> Seq<char> {
    seq!['"'] + s + seq!['"']
}

/// The index of the closing quote, scanning over plain characters only;
/// negative when the string never closes or holds a character the stored
/// form cannot carry.
pub open spec fn close_quote_at(s: Seq<char>) -> int
    decreases s.len(),
{
    if s.len() == 0 {
        -1
    } else if s[0] == '"' {
        0
    } else if plain_char(s[0]) {
        let r = close_quote_at(s.skip(1));
        if r < 0 {
            -1
        } else {
            1 + r
        }
    } else {
        -1
    }
}

proof fn lemma_close_quote_at(content: Seq<char>, rest: Seq<char>)
    requires
        plain(content),
    ensures
        close_quote_at(content + seq!['"'] + rest) == content.len(),
    decreases content.len(),
{
    let s = content + seq!['"'] + rest;
    if content.len() == 0 {
        assert(s[0] == '"');
    } else {
        assert(s[0] == content[0]);
        assert(plain_char(content[0]));
        assert(content[0] != '"');
        assert(plain(content.skip(1)));
        lemma_close_quote_at(content.skip(1), rest);
        assert(s.skip(1) =~= content.skip(1) + seq!['"'] + rest);
    }
}

/// The string parser: an opening quote, plain characters, a closing
/// quote.
pub open spec fn parse_string(s: Seq<char>) -> Option<(Seq<char>, Seq<char>)> {
    if s.len() == 0 || s[0] != '"' {
        Option::None
    } else {
        let m = close_quote_at(s.skip(1));
        if m < 0 {
            Option::None
        } else {
            Option::Some((s.skip(1).take(m), s.skip(1).skip(m + 1)))
        }
    }
}

proof fn lemma_parse_string_quoted(x: Seq<char>, rest: Seq<char>)
    requires
        plain(x),
    ensures
        parse_string(quoted(x) + rest) == Option::Some((x, rest)),
{
    let s = quoted(x) + rest;
    assert(s[0] == '"');
    assert(s.skip(1) =~= x + seq!['"'] + rest);
    lemma_close_quote_at(x, rest);
    let m = x.len() as int;
    assert(s.skip(1).take(m) =~= x);
    assert(s.skip(1).skip(m + 1) =~= rest);
}

// ------------------------------------------------------------------
// Fixed framing.
// ------------------------------------------------------------------
/// Consume an expected literal prefix.
pub open spec fn expect(s: Seq<char>, lit: Seq<char>) -> Option<Seq<char>> {
    if lit.len() <= s.len() && s.take(lit.len() as int) == lit {
        Option::Some(s.skip(lit.len() as int))
    } else {
        Option::None
    }
}

proof fn lemma_expect(lit: Seq<char>, rest: Seq<char>)
    ensures
        expect(lit + rest, lit) == Option::Some(rest),
{
    let s = lit + rest;
    assert(s.take(lit.len() as int) =~= lit);
    assert(s.skip(lit.len() as int) =~= rest);
}

pub open spec fn lit_obj_open() -> Seq<char> {
    seq!['{', '"', 'i', 'd', '"', ':']
}

pub open spec fn lit_name() -> Seq<char> {
    seq![',', '"', 'n', 'a', 'm', 'e', '"', ':']
}

pub open spec fn lit_species() -> Seq<char> {
    seq![',', '"', 's', 'p', 'e', 'c', 'i', 'e', 's', '"', ':']
}

pub open spec fn lit_age() -> Seq<char> {
    seq![',', '"', 'a', 'g', 'e', '"', ':']
}

pub open spec fn lit_created() -> Seq<char> {
    seq![',', '"', 'c', 'r', 'e', 'a', 't', 'e', 'd', '_', 'a', 't', '"', ':']
}

// ------------------------------------------------------------------
// One record.
// ------------------------------------------------------------------
/// The stored form of one record.
pub open spec fn render_bird(b: BirdView) -> Seq<char> {
    lit_obj_open() + dec(b.id as nat) + lit_name() + quoted(b.name) + lit_species() + quoted(
        b.species,
    ) + lit_age() + dec(b.age as nat) + lit_created() + dec(b.created_at as nat) + seq!['}']
}

/// The record parser, one field after the other in the fixed order.
pub open spec fn parse_bird(s: Seq<char>) -> Option<(BirdView, Seq<char>)> {
    match expect(s, lit_obj_open()) {
        Option::None => Option::None,
        Option::Some(s1) => match parse_num(s1) {
            Option::None => Option::None,
            Option::Some((id, s2)) => match expect(s2, lit_name()) {
                Option::None => Option::None,
                Option::Some(s3) => match parse_string(s3) {
                    Option::None => Option::None,
                    Option::Some((name, s4)) => match expect(s4, lit_species()) {
                        Option::None => Option::None,
                        Option::Some(s5) => match parse_string(s5) {
                            Option::None => Option::None,
                            Option::Some((species, s6)) => match expect(s6, lit_age()) {
                                Option::None => Option::None,
                                Option::Some(s7) => match parse_num(s7) {
                                    Option::None => Option::None,
                                    Option::Some((age, s8)) => match expect(s8, lit_created()) {
                                        Option::None => Option::None,
                                        Option::Some(s9) => match parse_num(s9) {
                                            Option::None => Option::None,
                                            Option::Some((created_at, s10)) => match expect(
                                                s10,
                                                seq!['}'],
                                            ) {
                                                Option::None => Option::None,
                                                Option::Some(s11) => Option::Some(
                                                    (
                                                        BirdView {
                                                            id,
                                                            name,
                                                            species,
                                                            age,
                                                            created_at,
                                                        },
                                                        s11,
                                                    ),
                                                ),
                                            },
                                        },
                                    },
                                },
                            },
                        },
                    },
                },
            },
        },
    }
}

#[verifier::rlimit(60)]
proof fn lemma_parse_bird_render(b: BirdView, rest: Seq<char>)
    requires
        wf_bird(b),
    ensures
        parse_bird(render_bird(b) + rest) == Option::Some((b, rest)),
{
    let t10 = seq!['}'] + rest;
    let t9 = dec(b.created_at as nat) + t10;
    let t8 = lit_created() + t9;
    let t7 = dec(b.age as nat) + t8;
    let t6 = lit_age() + t7;
    let t5 = quoted(b.species) + t6;
    let t4 = lit_species() + t5;
    let t3 = quoted(b.name) + t4;
    let t2 = lit_name() + t3;
    let t1 = dec(b.id as nat) + t2;
    let s = render_bird(b) + rest;
    assert(s =~= lit_obj_open() + t1);
    lemma_expect(lit_obj_open(), t1);
    assert(expect(s, lit_obj_open()) == Option::Some(t1));
    assert(t2[0] == ',');
    assert(!is_digit(',')) by {
        assert(',' as u32 == 44);
    }
    assert(t1 =~= dec(b.id as nat) + t2);
    lemma_parse_num_dec(b.id, t2);
    assert(parse_num(t1) == Option::Some((b.id, t2)));
    lemma_expect(lit_name(), t3);
    assert(expect(t2, lit_name()) == Option::Some(t3));
    lemma_parse_string_quoted(b.name, t4);
    assert(parse_string(t3) == Option::Some((b.name, t4)));
    lemma_expect(lit_species(), t5);
    assert(expect(t4, lit_species()) == Option::Some(t5));
    lemma_parse_string_quoted(b.species, t6);
    assert(parse_string(t5) == Option::Some((b.species, t6)));
    lemma_expect(lit_age(), t7);
    assert(expect(t6, lit_age()) == Option::Some(t7));
    assert(t8[0] == ',');
    lemma_parse_num_dec(b.age, t8);
    assert(parse_num(t7) == Option::Some((b.age, t8)));
    lemma_expect(lit_created(), t9);
    assert(expect(t8, lit_created()) == Option::Some(t9));
    assert(t10[0] == '}');
    assert(!is_digit('}')) by {
        assert('}' as u32 == 125);
    }
    lemma_parse_num_dec(b.created_at, t10);
    assert(parse_num(t9) == Option::Some((b.created_at, t10)));
    lemma_expect(seq!['}'], rest);
    assert(expect(t10, seq!['}']) == Option::Some(rest));
    let built = BirdView {
        id: b.id,
        name: b.name,
        species: b.species,
        age: b.age,
        created_at: b.created_at,
    };
    assert(parse_bird(s) == Option::Some((built, rest)));
    assert(built =~= b);
}

// ------------------------------------------------------------------
// The whole collection.
// ------------------------------------------------------------------
proof fn lemma_digit_prefix_len_bounds(s: Seq<char>)
    ensures
        0 <= digit_prefix_len(s) <= s.len(),
    decreases s.len(),
{
    if s.len() > 0 && is_digit(s[0]) {
        lemma_digit_prefix_len_bounds(s.skip(1));
    }
}

proof fn lemma_close_quote_bounds(s: Seq<char>)
    ensures
        close_quote_at(s) < s.len(),
        close_quote_at(s) >= 0 ==> s[close_quote_at(s)] == '"',
    decreases s.len(),
{
    if s.len() > 0 && s[0] != '"' && plain_char(s[0]) {
        lemma_close_quote_bounds(s.skip(1));
    }
}

/// A successful record parse consumes at least one character.
proof fn lemma_parse_bird_shrinks(s: Seq<char>)
    requires
        parse_bird(s) is Some,
    ensures
        (parse_bird(s)->0).1.len() < s.len(),
{
    let s1 = expect(s, lit_obj_open())->0;
    let r2 = parse_num(s1)->0;
    let s2 = r2.1;
    proof_num_shrink(s1);
    let s3 = expect(s2, lit_name())->0;
    let r4 = parse_string(s3)->0;
    proof_string_shrink(s3);
    let s4 = r4.1;
    let s5 = expect(s4, lit_species())->0;
    let r6 = parse_string(s5)->0;
    proof_string_shrink(s5);
    let s6 = r6.1;
    let s7 = expect(s6, lit_age())->0;
    let r8 = parse_num(s7)->0;
    proof_num_shrink(s7);
    let s8 = r8.1;
    let s9 = expect(s8, lit_created())->0;
    let r10 = parse_num(s9)->0;
    proof_num_shrink(s9);
    let s10 = r10.1;
    let s11 = expect(s10, seq!['}'])->0;
    assert(s11.len() < s.len());
}

proof fn proof_num_shrink(s: Seq<char>)
    ensures
        parse_num(s) is Some ==> (parse_num(s)->0).1.len() <= s.len(),
{
    lemma_digit_prefix_len_bounds(s);
}

proof fn proof_string_shrink(s: Seq<char>)
    ensures
        parse_string(s) is Some ==> (parse_string(s)->0).1.len() <= s.len(),
{
    if s.len() > 0 && s[0] == '"' {
        lemma_close_quote_bounds(s.skip(1));
    }
}

/// One or more records separated by commas, closed by `]`.
pub open spec fn parse_birds_seq(s: Seq<char>) -> Option<(Seq<BirdView>, Seq<char>)>
    decreases s.len(),
    via parse_birds_seq_decreases
{
    match parse_bird(s) {
        Option::None => Option::None,
        Option::Some((b, s1)) => {
            if s1.len() > 0 && s1[0] == ']' {
                Option::Some((seq![b], s1.skip(1)))
            } else if s1.len() > 0 && s1[0] == ',' {
                match parse_birds_seq(s1.skip(1)) {
                    Option::None => Option::None,
                    Option::Some((bs, s2)) => Option::Some((seq![b] + bs, s2)),
                }
            } else {
                Option::None
            }
        },
    }
}

#[via_fn]
proof fn parse_birds_seq_decreases(s: Seq<char>) {
    if parse_bird(s) is Some {
        lemma_parse_bird_shrinks(s);
    }
}

/// The stored form of the records between the brackets.
pub open spec fn render_birds_inner(bs: Seq<BirdView>) -> Seq<char>
    decreases bs.len(),
{
    if bs.len() == 0 {
        Seq::empty()
    } else if bs.len() == 1 {
        render_bird(bs[0])
    } else {
        render_bird(bs[0]) + seq![','] + render_birds_inner(bs.skip(1))
    }
}

/// The stored form of a whole collection.
pub open spec fn render_db_spec(bs: Seq<BirdView>) -> Seq<char> {
    seq!['['] + render_birds_inner(bs) + seq![']']
}

/// The collection parser: the content is accepted only as a whole.
pub open spec fn parse_db_spec(s: Seq<char>) -> Option<Seq<BirdView>> {
    if s.len() >= 1 && s[0] == '[' {
        let s1 = s.skip(1);
        if s1.len() >= 1 && s1[0] == ']' {
            if s1.len() == 1 {
                Option::Some(Seq::empty())
            } else {
                Option::None
            }
        } else {
            match parse_birds_seq(s1) {
                Option::None => Option::None,
                Option::Some((bs, s2)) => if s2.len() == 0 {
                    Option::Some(bs)
                } else {
                    Option::None
                },
            }
        }
    } else {
        Option::None
    }
}

proof fn lemma_parse_birds_seq_render(bs: Seq<BirdView>)
    requires
        bs.len() >= 1,
        wf_birds(bs),
    ensures
        parse_birds_seq(render_birds_inner(bs) + seq![']']) == Option::Some(
            (bs, Seq::<char>::empty()),
        ),
    decreases bs.len(),
{
    let s = render_birds_inner(bs) + seq![']'];
    if bs.len() == 1 {
        assert(s =~= render_bird(bs[0]) + seq![']']);
        lemma_parse_bird_render(bs[0], seq![']']);
        let s1 = seq![']'];
        assert(s1[0] == ']');
        assert(s1.skip(1) =~= Seq::<char>::empty());
        assert(seq![bs[0]] =~= bs);
    } else {
        let tail = render_birds_inner(bs.skip(1)) + seq![']'];
        let r0 = seq![','] + tail;
        assert(s =~= render_bird(bs[0]) + r0);
        lemma_parse_bird_render(bs[0], r0);
        assert(r0[0] == ',');
        assert(r0[0] != ']') by {
            assert(',' as u32 == 44);
            assert(']' as u32 == 93);
        }
        assert(r0.skip(1) =~= tail);
        assert(wf_birds(bs.skip(1)));
        lemma_parse_birds_seq_render(bs.skip(1));
        assert(seq![bs[0]] + bs.skip(1) =~= bs);
    }
}

/// Round trip: parsing the stored form of any well-formed collection
/// gives exactly that collection back.  Together with the contracts of
/// [`render_db`] and [`load_db`] this says that saving what was loaded
/// rewrites the file content unchanged.
pub proof fn lemma_save_load_round_trip(bs: Seq<BirdView>)
    requires
        wf_birds(bs),
    ensures
        parse_db_spec(render_db_spec(bs)) == Option::Some(bs),
{
    let s = render_db_spec(bs);
    assert(s[0] == '[');
    let s1 = s.skip(1);
    assert(s1 =~= render_birds_inner(bs) + seq![']']);
    if bs.len() == 0 {
        assert(s1 =~= seq![']']);
    } else {
        assert(render_birds_inner(bs)[0] == render_bird(bs[0])[0]);
        assert(render_bird(bs[0])[0] == '{');
        assert(s1[0] == '{');
        assert(s1[0] != ']') by {
            assert('{' as u32 == 123);
            assert(']' as u32 == 93);
        }
        lemma_parse_birds_seq_render(bs);
    }
}

// ------------------------------------------------------------------
// Soundness: accepted content is exactly a rendering.
// ------------------------------------------------------------------
/// A digit character is the digit character of its value.
proof fn lemma_digit_char_inverse(c: char)
    requires
        is_digit(c),
    ensures
        digit_char(digit_val(c)) == c,
{
    assert('0' as u32 == 48);
    assert('1' as u32 == 49);
    assert('2' as u32 == 50);
    assert('3' as u32 == 51);
    assert('4' as u32 == 52);
    assert('5' as u32 == 53);
    assert('6' as u32 == 54);
    assert('7' as u32 == 55);
    assert('8' as u32 == 56);
    assert('9' as u32 == 57);
}

/// A digit string without a leading zero has a positive value.
proof fn lemma_val_positive(s: Seq<char>)
    requires
        all_digits(s),
        s.len() >= 1,
        s[0] != '0',
    ensures
        val(s) >= 1,
    decreases s.len(),
{
    if s.len() == 1 {
        assert(s.drop_last() =~= Seq::<char>::empty());
        assert(val(Seq::<char>::empty()) == 0);
        assert(val(s) == digit_val(s.last()));
        assert(s.last() == s[0]);
        lemma_digit_char_inverse(s[0]);
        assert(digit_val(s[0]) >= 1) by {
            if digit_val(s[0]) == 0 {
                lemma_digit_char(0);
                assert(digit_char(digit_val(s[0])) == s[0]);
            }
        }
    } else {
        assert(all_digits(s.drop_last()));
        assert(s.drop_last()[0] == s[0]);
        lemma_val_positive(s.drop_last());
        assert(digit_val(s.last()) >= 0);
    }
}

/// The decimal form is the unique digit string without a leading zero:
/// rendering the value of such a string gives the string back.
proof fn lemma_dec_unique(s: Seq<char>)
    requires
        all_digits(s),
        s.len() >= 1,
        s.len() > 1 ==> s[0] != '0',
    ensures
        val(s) >= 0,
        dec(val(s) as nat) == s,
    decreases s.len(),
{
    lemma_val_nonneg(s);
    if s.len() == 1 {
        assert(s.drop_last() =~= Seq::<char>::empty());
        assert(val(Seq::<char>::empty()) == 0);
        assert(val(s) == digit_val(s[0]));
        assert(0 <= val(s) < 10);
        lemma_digit_char_inverse(s[0]);
        assert(dec(val(s) as nat) =~= s);
    } else {
        let u = s.drop_last();
        let d = digit_val(s.last());
        assert(all_digits(u));
        assert(u[0] == s[0]);
        lemma_dec_unique(u);
        lemma_val_positive(u);
        assert(val(s) == 10 * val(u) + d);
        assert(0 <= d < 10);
        assert(val(s) >= 10);
        assert(val(s) / 10 == val(u) && val(s) % 10 == d) by (nonlinear_arith)
            requires
                val(s) == 10 * val(u) + d,
                0 <= d < 10,
                val(u) >= 0,
        ;
        lemma_digit_char_inverse(s.last());
        assert(dec(val(s) as nat) == dec(val(u) as nat).push(digit_char(d)));
        assert(dec(val(s) as nat) =~= s);
    }
}

/// Every character of the digit prefix is a digit.
proof fn lemma_dpl_digits(s: Seq<char>)
    ensures
        0 <= digit_prefix_len(s) <= s.len(),
        forall|i: int| 0 <= i < digit_prefix_len(s) ==> is_digit(#[trigger] s[i]),
    decreases s.len(),
{
    if s.len() > 0 && is_digit(s[0]) {
        lemma_dpl_digits(s.skip(1));
        assert forall|i: int| 0 <= i < digit_prefix_len(s) implies is_digit(#[trigger] s[i]) by {
            if i > 0 {
                assert(s.skip(1)[i - 1] == s[i]);
                assert(is_digit(s.skip(1)[i - 1]));
            }
        }
    }
}

/// A parsed number re-renders to exactly what was consumed.
proof fn lemma_parse_num_sound(s: Seq<char>, v: u64, r: Seq<char>)
    requires
        parse_num(s) == Option::Some((v, r)),
    ensures
        s == dec(v as nat) + r,
{
    let k = digit_prefix_len(s);
    lemma_dpl_digits(s);
    assert(k >= 1);
    let p = s.take(k);
    assert(all_digits(p)) by {
        assert forall|i: int| 0 <= i < p.len() implies is_digit(#[trigger] p[i]) by {
            assert(p[i] == s[i]);
        }
    }
    assert(p.len() > 1 ==> p[0] != '0') by {
        assert(p[0] == s[0]);
    }
    lemma_dec_unique(p);
    assert(v == val(p));
    assert(dec(v as nat) == p);
    assert(s =~= p + s.skip(k));
}

/// The scan to the closing quote passes only plain characters.
proof fn lemma_cq_plain_prefix(u: Seq<char>)
    requires
        close_quote_at(u) >= 0,
    ensures
        forall|t: int| 0 <= t < close_quote_at(u) ==> plain_char(#[trigger] u[t]),
    decreases u.len(),
{
    if u.len() > 0 && u[0] != '"' && plain_char(u[0]) && close_quote_at(u) > 0 {
        lemma_close_quote_bounds(u);
        lemma_close_quote_bounds(u.skip(1));
        lemma_cq_plain_prefix(u.skip(1));
        assert forall|t: int| 0 <= t < close_quote_at(u) implies plain_char(#[trigger] u[t]) by {
            if t > 0 {
                assert(u.skip(1)[t - 1] == u[t]);
                assert(plain_char(u.skip(1)[t - 1]));
            }
        }
    }
}

/// A parsed string re-renders to exactly what was consumed.
proof fn lemma_parse_string_sound(s: Seq<char>, x: Seq<char>, r: Seq<char>)
    requires
        parse_string(s) == Option::Some((x, r)),
    ensures
        s == quoted(x) + r,
        plain(x),
{
    let inner = s.skip(1);
    let m = close_quote_at(inner);
    lemma_close_quote_bounds(inner);
    lemma_cq_plain_prefix(inner);
    assert(x == inner.take(m));
    assert(plain(x)) by {
        assert forall|t: int| 0 <= t < x.len() implies plain_char(#[trigger] x[t]) by {
            assert(x[t] == inner[t]);
        }
    }
    assert(inner[m] == '"');
    assert(s =~= quoted(x) + r);
}

/// A parsed record re-renders to exactly what was consumed.
#[verifier::rlimit(100)]
proof fn lemma_parse_bird_sound(s: Seq<char>, b: BirdView, r: Seq<char>)
    requires
        parse_bird(s) == Option::Some((b, r)),
    ensures
        s == render_bird(b) + r,
        wf_bird(b),
{
    let s1 = expect(s, lit_obj_open())->0;
    let r2 = parse_num(s1)->0;
    let s2 = r2.1;
    let s3 = expect(s2, lit_name())->0;
    let r4 = parse_string(s3)->0;
    let s4 = r4.1;
    let s5 = expect(s4, lit_species())->0;
    let r6 = parse_string(s5)->0;
    let s6 = r6.1;
    let s7 = expect(s6, lit_age())->0;
    let r8 = parse_num(s7)->0;
    let s8 = r8.1;
    let s9 = expect(s8, lit_created())->0;
    let r10 = parse_num(s9)->0;
    let s10 = r10.1;
    let s11 = expect(s10, seq!['}'])->0;
    assert(b == BirdView {
        id: r2.0,
        name: r4.0,
        species: r6.0,
        age: r8.0,
        created_at: r10.0,
    });
    assert(r == s11);
    lemma_parse_num_sound(s1, r2.0, s2);
    lemma_parse_string_sound(s3, r4.0, s4);
    lemma_parse_string_sound(s5, r6.0, s6);
    lemma_parse_num_sound(s7, r8.0, s8);
    lemma_parse_num_sound(s9, r10.0, s10);
    assert(s =~= s.take(lit_obj_open().len() as int) + s1);
    assert(s2 =~= s2.take(lit_name().len() as int) + s3);
    assert(s4 =~= s4.take(lit_species().len() as int) + s5);
    assert(s6 =~= s6.take(lit_age().len() as int) + s7);
    assert(s8 =~= s8.take(lit_created().len() as int) + s9);
    assert(s10 =~= s10.take(1) + s11);
    assert(s =~= render_bird(b) + r);
}

/// A parsed record run re-renders to exactly what was consumed, up to the
/// closing bracket.
#[verifier::rlimit(100)]
#[verifier::spinoff_prover]
proof fn lemma_parse_birds_seq_sound(s: Seq<char>, bs: Seq<BirdView>, r: Seq<char>)
    requires
        parse_birds_seq(s) == Option::Some((bs, r)),
    ensures
        bs.len() >= 1,
        s == render_birds_inner(bs) + seq![']'] + r,
        wf_birds(bs),
    decreases s.len(),
{
    let pb = parse_bird(s)->0;
    let b = pb.0;
    let s1 = pb.1;
    lemma_parse_bird_shrinks(s);
    lemma_parse_bird_sound(s, b, s1);
    if s1.len() > 0 && s1[0] == ']' {
        assert(bs == seq![b]);
        assert(render_birds_inner(bs) == render_bird(b));
        assert(s1 =~= seq![']'] + s1.skip(1));
        assert(s =~= render_birds_inner(bs) + seq![']'] + r);
    } else {
        let pr = parse_birds_seq(s1.skip(1))->0;
        lemma_parse_birds_seq_sound(s1.skip(1), pr.0, pr.1);
        assert(bs == seq![b] + pr.0);
        assert(bs[0] == b);
        assert(bs.skip(1) =~= pr.0);
        assert(render_birds_inner(bs) == render_bird(b) + seq![','] + render_birds_inner(
            bs.skip(1),
        )) by {
            assert(bs.len() >= 2);
        }
        assert(s1 =~= seq![','] + s1.skip(1));
        assert(s =~= render_birds_inner(bs) + seq![']'] + r);
        assert(wf_birds(bs)) by {
            assert forall|i: int| 0 <= i < bs.len() implies wf_bird(#[trigger] bs[i]) by {
                if i > 0 {
                    assert(bs[i] == pr.0[i - 1]);
                    assert(wf_bird(pr.0[i - 1]));
                }
            }
        }
    }
}

/// Soundness of the collection parser: content that loads as some
/// collection is exactly that collection's stored form.  Together with
/// the contracts of [`load_db`] and [`render_db`] this says that saving
/// what was loaded rewrites any accepted file content unchanged.
#[verifier::rlimit(100)]
pub proof fn lemma_load_save_round_trip(content: Seq<char>, bs: Seq<BirdView>)
    requires
        parse_db_spec(content) == Option::Some(bs),
    ensures
        render_db_spec(bs) == content,
        wf_birds(bs),
{
    let s1 = content.skip(1);
    if s1.len() >= 1 && s1[0] == ']' {
        assert(bs == Seq::<BirdView>::empty());
        assert(render_birds_inner(bs) =~= Seq::<char>::empty());
        assert(content.len() == 2);
        assert(content[0] == '[');
        assert(content[1] == s1[0]);
        assert(render_db_spec(bs) =~= seq!['[', ']']);
        assert(content =~= seq!['[', ']']);
    } else {
        let pr = parse_birds_seq(s1)->0;
        lemma_parse_birds_seq_sound(s1, pr.0, pr.1);
        assert(pr.1.len() == 0);
        assert(pr.1 =~= Seq::<char>::empty());
        assert(s1 =~= render_birds_inner(bs) + seq![']']);
        assert(content =~= seq!['['] + s1);
        assert(render_db_spec(bs) =~= content);
    }
}

// ------------------------------------------------------------------
// Rendering, executable.
// ------------------------------------------------------------------
/// The mathematical values of a collection.
pub open spec fn views(s: Seq<Bird>) -> Seq<BirdView> {
    s.map_values(|b: Bird| b@)
}

fn digit_str(d: u64) -> (s: &'static str)
    requires
        d < 10,
    ensures
        s@ == seq![digit_char(d as int)],
{
    proof {
        reveal_strlit("0");
        reveal_strlit("1");
        reveal_strlit("2");
        reveal_strlit("3");
        reveal_strlit("4");
        reveal_strlit("5");
        reveal_strlit("6");
        reveal_strlit("7");
        reveal_strlit("8");
        reveal_strlit("9");
    }
    let s: &'static str = if d == 0 {
        "0"
    } else if d == 1 {
        "1"
    } else if d == 2 {
        "2"
    } else if d == 3 {
        "3"
    } else if d == 4 {
        "4"
    } else if d == 5 {
        "5"
    } else if d == 6 {
        "6"
    } else if d == 7 {
        "7"
    } else if d == 8 {
        "8"
    } else {
        "9"
    };
    proof {
        assert(s@ =~= seq![digit_char(d as int)]);
    }
    s
}

/// Append the decimal form of `n`.
fn append_u64(out: &mut String, n: u64)
    ensures
        final(out)@ == old(out)@ + dec(n as nat),
    decreases n,
{
    if n < 10 {
        out.append(digit_str(n));
        proof {
            assert(final(out)@ =~= old(out)@ + dec(n as nat));
        }
    } else {
        append_u64(out, n / 10);
        out.append(digit_str(n % 10));
        proof {
            assert(final(out)@ =~= old(out)@ + dec(n as nat));
        }
    }
}

/// Append the stored form of one record.
fn render_bird_into(out: &mut String, b: &Bird)
    ensures
        final(out)@ == old(out)@ + render_bird(b@),
{
    proof {
        reveal_strlit("{\"id\":");
        reveal_strlit(",\"name\":\"");
        reveal_strlit("\",\"species\":\"");
        reveal_strlit("\",\"age\":");
        reveal_strlit(",\"created_at\":");
        reveal_strlit("}");
        assert("{\"id\":"@ =~= lit_obj_open());
        assert(",\"name\":\""@ =~= lit_name() + seq!['"']);
        assert("\",\"species\":\""@ =~= seq!['"'] + lit_species() + seq!['"']);
        assert("\",\"age\":"@ =~= seq!['"'] + lit_age());
        assert(",\"created_at\":"@ =~= lit_created());
        assert("}"@ =~= seq!['}']);
    }
    out.append("{\"id\":");
    append_u64(out, b.id);
    out.append(",\"name\":\"");
    out.append(b.name.as_str());
    out.append("\",\"species\":\"");
    out.append(b.species.as_str());
    out.append("\",\"age\":");
    append_u64(out, b.age);
    out.append(",\"created_at\":");
    append_u64(out, b.created_at);
    out.append("}");
    proof {
        assert(final(out)@ =~= old(out)@ + render_bird(b@));
    }
}

proof fn lemma_render_inner_push(bs: Seq<BirdView>, b: BirdView)
    ensures
        bs.len() == 0 ==> render_birds_inner(bs.push(b)) == render_bird(b),
        bs.len() >= 1 ==> render_birds_inner(bs.push(b)) == render_birds_inner(bs) + seq![',']
            + render_bird(b),
    decreases bs.len(),
{
    let p = bs.push(b);
    if bs.len() == 0 {
        assert(p.len() == 1);
        assert(p[0] == b);
    } else if bs.len() == 1 {
        assert(p.skip(1) =~= seq![b]);
        assert(p[0] == bs[0]);
        assert(render_birds_inner(seq![b]) == render_bird(b));
        assert(render_birds_inner(bs) == render_bird(bs[0]));
        assert(render_birds_inner(p) =~= render_birds_inner(bs) + seq![','] + render_bird(b));
    } else {
        assert(p.skip(1) =~= bs.skip(1).push(b));
        lemma_render_inner_push(bs.skip(1), b);
        assert(p[0] == bs[0]);
        assert(render_birds_inner(p) =~= render_birds_inner(bs) + seq![','] + render_bird(b));
    }
}

/// Serialize the whole collection; the result replaces the backing
/// file's content wholesale.
pub fn render_db(birds: &Vec<Bird>) -> (out: String)
    ensures
        out@ == render_db_spec(views(birds@)),
{
    let ghost all = views(birds@);
    let mut out = String::new();
    out.append("[");
    proof {
        reveal_strlit("[");
        assert(all.take(0) =~= Seq::<BirdView>::empty());
        assert(out@ =~= seq!['['] + render_birds_inner(all.take(0)));
    }
    let mut i: usize = 0;
    while i < birds.len()
        invariant
            i <= birds@.len(),
            all == views(birds@),
            out@ == seq!['['] + render_birds_inner(all.take(i as int)),
        decreases birds@.len() - i,
    {
        if i > 0 {
            out.append(",");
        }
        render_bird_into(&mut out, &birds[i]);
        proof {
            reveal_strlit(",");
            assert(all[i as int] == birds@[i as int]@);
            assert(all.take(i + 1) =~= all.take(i as int).push(all[i as int]));
            lemma_render_inner_push(all.take(i as int), all[i as int]);
            assert(out@ =~= seq!['['] + render_birds_inner(all.take(i + 1)));
        }
        i += 1;
    }
    out.append("]");
    proof {
        reveal_strlit("]");
        assert(all.take(birds@.len() as int) =~= all);
        assert(out@ =~= render_db_spec(all));
    }
    out
}

// ------------------------------------------------------------------
// Parsing, executable.
// ------------------------------------------------------------------
fn is_digit_c(c: char) -> (b: bool)
    ensures
        b == is_digit(c),
{
    let x = c as u32;
    48 <= x && x <= 57
}

/// Match the literal `lit` at position `i`; on success the position just
/// past it.
fn expect_lit(s: &str, i: usize, lit: &str) -> (r: Option<usize>)
    requires
        i <= s@.len(),
    ensures
        match r {
            Option::Some(j) => {
                &&& i <= j <= s@.len()
                &&& expect(s@.skip(i as int), lit@) == Option::Some(s@.skip(j as int))
            },
            Option::None => expect(s@.skip(i as int), lit@) is None,
        },
{
    let n = s.unicode_len();
    let m = lit.unicode_len();
    if m > n - i {
        return None;
    }
    let mut t: usize = 0;
    while t < m
        invariant
            0 <= t <= m,
            i + m <= n,
            n == s@.len(),
            m == lit@.len(),
            forall|k: int| 0 <= k < t ==> s@[i + k] == lit@[k],
        decreases m - t,
    {
        if s.get_char(i + t) != lit.get_char(t) {
            proof {
                assert(s@.skip(i as int).take(m as int)[t as int] == s@[i + t]);
            }
            return None;
        }
        t += 1;
    }
    proof {
        assert(s@.skip(i as int).take(m as int) =~= lit@);
        assert(s@.skip(i as int).skip(m as int) =~= s@.skip(i + m));
    }
    Some(i + m)
}

/// Parse a decimal number at position `i`.
#[verifier::rlimit(60)]
fn parse_num_at(s: &str, i: usize) -> (r: Option<(u64, usize)>)
    requires
        i <= s@.len(),
    ensures
        match r {
            Option::Some(p) => {
                &&& i < p.1 <= s@.len()
                &&& parse_num(s@.skip(i as int)) == Option::Some((p.0, s@.skip(p.1 as int)))
            },
            Option::None => parse_num(s@.skip(i as int)) is None,
        },
{
    let n = s.unicode_len();
    let mut j: usize = i;
    let mut stop = false;
    while j < n && !stop
        invariant
            i <= j <= n,
            n == s@.len(),
            forall|k: int| i <= k < j ==> is_digit(#[trigger] s@[k]),
            stop ==> j < n && !is_digit(s@[j as int]),
        decreases n - j + (if stop {
            0int
        } else {
            1int
        }),
    {
        if is_digit_c(s.get_char(j)) {
            j += 1;
        } else {
            stop = true;
        }
    }
    proof {
        assert(j == n || !is_digit(s@[j as int]));
        assert forall|k: int| 0 <= k < j - i implies is_digit(#[trigger] s@.skip(i as int)[k]) by {
            assert(s@.skip(i as int)[k] == s@[i + k]);
        }
        if j < n {
            assert(s@.skip(i as int)[j - i] == s@[j as int]);
        }
        lemma_digit_prefix_len_is(s@.skip(i as int), j - i);
    }
    if j == i {
        return None;
    }
    if j - i > 1 && s.get_char(i) == '0' {
        proof {
            assert(s@.skip(i as int)[0] == s@[i as int]);
        }
        return None;
    }
    let ghost prefix = s@.skip(i as int).take(j - i);
    proof {
        assert(prefix =~= s@.subrange(i as int, j as int));
        assert(all_digits(prefix));
        assert(s@.subrange(i as int, i as int) =~= Seq::<char>::empty());
        assert(val(Seq::<char>::empty()) == 0);
    }
    let mut acc: u64 = 0;
    let mut t: usize = i;
    while t < j
        invariant
            i <= t <= j <= n,
            i < j,
            n == s@.len(),
            forall|k: int| i <= k < j ==> is_digit(#[trigger] s@[k]),
            prefix == s@.skip(i as int).take(j - i),
            prefix =~= s@.subrange(i as int, j as int),
            all_digits(prefix),
            digit_prefix_len(s@.skip(i as int)) == j - i,
            !(j - i > 1 && s@[i as int] == '0'),
            acc == val(s@.subrange(i as int, t as int)),
        decreases j - t,
    {
        let c = s.get_char(t);
        let d = (c as u32 - 48) as u64;
        proof {
            assert(is_digit(s@[t as int]));
            assert(0 <= d <= 9);
            assert(digit_val(s@[t as int]) == d);
            assert(s@.subrange(i as int, t + 1).drop_last() =~= s@.subrange(i as int, t as int));
            assert(s@.subrange(i as int, t + 1).last() == s@[t as int]);
            assert(val(s@.subrange(i as int, t + 1)) == 10 * acc + d);
        }
        let acc10 = match acc.checked_mul(10) {
            Some(x) => x,
            None => {
                proof {
                    assert(s@.subrange(i as int, t + 1) =~= prefix.take(t + 1 - i));
                    lemma_val_prefix_le(prefix, t + 1 - i);
                    assert(val(prefix) > u64::MAX);
                    assert(s@.skip(i as int)[0] == s@[i as int]);
                }
                return None;
            },
        };
        let acc2 = match acc10.checked_add(d) {
            Some(x) => x,
            None => {
                proof {
                    assert(s@.subrange(i as int, t + 1) =~= prefix.take(t + 1 - i));
                    lemma_val_prefix_le(prefix, t + 1 - i);
                    assert(val(prefix) > u64::MAX);
                    assert(s@.skip(i as int)[0] == s@[i as int]);
                }
                return None;
            },
        };
        acc = acc2;
        t += 1;
    }
    proof {
        assert(s@.subrange(i as int, j as int) =~= prefix);
        assert(val(prefix) == acc);
        assert(s@.skip(i as int).skip(j - i) =~= s@.skip(j as int));
    }
    Some((acc, j))
}

proof fn lemma_cq_found(u: Seq<char>, m: int)
    requires
        0 <= m < u.len(),
        forall|t: int| 0 <= t < m ==> plain_char(#[trigger] u[t]),
        u[m] == '"',
    ensures
        close_quote_at(u) == m,
    decreases m,
{
    if m > 0 {
        lemma_cq_found(u.skip(1), m - 1);
    }
}

proof fn lemma_cq_bad(u: Seq<char>, m: int)
    requires
        0 <= m < u.len(),
        forall|t: int| 0 <= t < m ==> plain_char(#[trigger] u[t]),
        !plain_char(u[m]),
        u[m] != '"',
    ensures
        close_quote_at(u) == -1,
    decreases m,
{
    if m > 0 {
        lemma_cq_bad(u.skip(1), m - 1);
    }
}

proof fn lemma_cq_all_plain(u: Seq<char>)
    requires
        plain(u),
    ensures
        close_quote_at(u) == -1,
    decreases u.len(),
{
    if u.len() > 0 {
        assert(plain_char(u[0]));
        assert(plain(u.skip(1)));
        lemma_cq_all_plain(u.skip(1));
    }
}

/// Parse a quoted string of plain characters at position `i`.
#[verifier::rlimit(60)]
fn parse_string_at(s: &str, i: usize) -> (r: Option<(String, usize)>)
    requires
        i <= s@.len(),
    ensures
        match r {
            Option::Some(p) => {
                &&& i < p.1 <= s@.len()
                &&& parse_string(s@.skip(i as int)) == Option::Some((p.0@, s@.skip(p.1 as int)))
                &&& plain(p.0@)
            },
            Option::None => parse_string(s@.skip(i as int)) is None,
        },
{
    let n = s.unicode_len();
    if i >= n {
        return None;
    }
    if s.get_char(i) != '"' {
        proof {
            assert(s@.skip(i as int)[0] == s@[i as int]);
        }
        return None;
    }
    let ghost inner = s@.skip(i + 1);
    let mut j: usize = i + 1;
    let mut found = false;
    while j < n && !found
        invariant
            i + 1 <= j <= n,
            n == s@.len(),
            inner == s@.skip(i + 1),
            forall|k: int| i + 1 <= k < j ==> plain_char(#[trigger] s@[k]),
            found ==> j < n && s@[j as int] == '"',
        decreases n - j + (if found {
            0int
        } else {
            1int
        }),
    {
        let c = s.get_char(j);
        if c == '"' {
            found = true;
        } else if c == '\\' {
            proof {
                assert forall|t: int| 0 <= t < j - (i + 1) implies plain_char(
                    #[trigger] inner[t],
                ) by {
                    assert(inner[t] == s@[i + 1 + t]);
                }
                assert(inner[j - (i + 1)] == s@[j as int]);
                lemma_cq_bad(inner, j - (i + 1));
                assert(s@.skip(i as int)[0] == s@[i as int]);
                assert(s@.skip(i as int).skip(1) =~= inner);
            }
            return None;
        } else {
            j += 1;
        }
    }
    proof {
        assert forall|t: int| 0 <= t < j - (i + 1) implies plain_char(#[trigger] inner[t]) by {
            assert(inner[t] == s@[i + 1 + t]);
        }
    }
    if !found {
        proof {
            assert(j == n);
            assert(inner.len() == j - (i + 1));
            lemma_cq_all_plain(inner);
            assert(s@.skip(i as int)[0] == s@[i as int]);
            assert(s@.skip(i as int).skip(1) =~= inner);
        }
        return None;
    }
    let content = s.substring_char(i + 1, j);
    proof {
        assert(inner[j - (i + 1)] == s@[j as int]);
        lemma_cq_found(inner, j - (i + 1));
        assert(s@.skip(i as int)[0] == s@[i as int]);
        let m = j - (i + 1);
        assert(s@.skip(i as int).skip(1) =~= inner);
        assert(inner.take(m) =~= s@.subrange(i + 1, j as int));
        assert(inner.skip(m + 1) =~= s@.skip(j + 1));
        assert(plain(content@));
    }
    Some((content.to_owned(), j + 1))
}

/// Parse one record at position `i`.
#[verifier::rlimit(100)]
fn parse_bird_at(s: &str, i: usize) -> (r: Option<(Bird, usize)>)
    requires
        i <= s@.len(),
    ensures
        match r {
            Option::Some(p) => {
                &&& i < p.1 <= s@.len()
                &&& parse_bird(s@.skip(i as int)) == Option::Some((p.0@, s@.skip(p.1 as int)))
                &&& wf_bird(p.0@)
            },
            Option::None => parse_bird(s@.skip(i as int)) is None,
        },
{
    proof {
        reveal_strlit("{\"id\":");
        reveal_strlit(",\"name\":");
        reveal_strlit(",\"species\":");
        reveal_strlit(",\"age\":");
        reveal_strlit(",\"created_at\":");
        reveal_strlit("}");
        assert("{\"id\":"@ =~= lit_obj_open());
        assert(",\"name\":"@ =~= lit_name());
        assert(",\"species\":"@ =~= lit_species());
        assert(",\"age\":"@ =~= lit_age());
        assert(",\"created_at\":"@ =~= lit_created());
        assert("}"@ =~= seq!['}']);
    }
    let p1 = match expect_lit(s, i, "{\"id\":") {
        Some(j) => j,
        None => {
            return None;
        },
    };
    let (id, p2) = match parse_num_at(s, p1) {
        Some(p) => p,
        None => {
            return None;
        },
    };
    let p3 = match expect_lit(s, p2, ",\"name\":") {
        Some(j) => j,
        None => {
            return None;
        },
    };
    let (name, p4) = match parse_string_at(s, p3) {
        Some(p) => p,
        None => {
            return None;
        },
    };
    let p5 = match expect_lit(s, p4, ",\"species\":") {
        Some(j) => j,
        None => {
            return None;
        },
    };
    let (species, p6) = match parse_string_at(s, p5) {
        Some(p) => p,
        None => {
            return None;
        },
    };
    let p7 = match expect_lit(s, p6, ",\"age\":") {
        Some(j) => j,
        None => {
            return None;
        },
    };
    let (age, p8) = match parse_num_at(s, p7) {
        Some(p) => p,
        None => {
            return None;
        },
    };
    let p9 = match expect_lit(s, p8, ",\"created_at\":") {
        Some(j) => j,
        None => {
            return None;
        },
    };
    let (created_at, p10) = match parse_num_at(s, p9) {
        Some(p) => p,
        None => {
            return None;
        },
    };
    let p11 = match expect_lit(s, p10, "}") {
        Some(j) => j,
        None => {
            return None;
        },
    };
    let b = Bird { id, name, species, age, created_at };
    proof {
        assert(b@ =~= BirdView {
            id: id,
            name: b.name@,
            species: b.species@,
            age: age,
            created_at: created_at,
        });
        assert(parse_bird(s@.skip(i as int)) == Option::Some((b@, s@.skip(p11 as int))));
    }
    Some((b, p11))
}

/// Parse a whole file's content; `None` exactly when the content is not
/// the stored form of some collection.
#[verifier::rlimit(100)]
pub fn parse_db(content: &str) -> (r: Option<Vec<Bird>>)
    ensures
        match r {
            Option::Some(v) => {
                &&& parse_db_spec(content@) == Option::Some(views(v@))
                &&& wf_birds(views(v@))
            },
            Option::None => parse_db_spec(content@) is None,
        },
{
    let n = content.unicode_len();
    if n == 0 {
        return None;
    }
    if content.get_char(0) != '[' {
        return None;
    }
    if n >= 2 && content.get_char(1) == ']' {
        proof {
            assert(content@.skip(1)[0] == content@[1]);
        }
        if n == 2 {
            let empty_birds: Vec<Bird> = Vec::new();
            proof {
                assert(views(empty_birds@) =~= Seq::<BirdView>::empty());
            }
            return Some(empty_birds);
        } else {
            return None;
        }
    }
    let mut birds: Vec<Bird> = Vec::new();
    let mut pos: usize = 1;
    proof {
        assert(views(birds@) =~= Seq::<BirdView>::empty());
    }
    loop
        invariant
            1 <= pos <= n,
            n == content@.len(),
            n >= 1,
            content@[0] == '[',
            !(content@.skip(1).len() >= 1 && content@.skip(1)[0] == ']'),
            wf_birds(views(birds@)),
            match parse_birds_seq(content@.skip(pos as int)) {
                Option::Some(pr) => parse_birds_seq(content@.skip(1)) == Option::Some(
                    (views(birds@) + pr.0, pr.1),
                ),
                Option::None => parse_birds_seq(content@.skip(1)) is None,
            },
        decreases n - pos,
    {
        match parse_bird_at(content, pos) {
            None => {
                return None;
            },
            Some((b, j)) => {
                if j < n {
                    let c = content.get_char(j);
                    if c == ',' {
                        proof {
                            let u = content@.skip(pos as int);
                            let u1 = content@.skip(j as int);
                            assert(u1[0] == ',');
                            assert(u1.skip(1) =~= content@.skip(j + 1));
                            assert(views(birds@.push(b)) =~= views(birds@).push(b@));
                            if parse_birds_seq(content@.skip(j + 1)) is Some {
                                let pr = parse_birds_seq(content@.skip(j + 1))->0;
                                assert(parse_birds_seq(u) == Option::Some(
                                    (seq![b@] + pr.0, pr.1),
                                ));
                                assert(views(birds@) + (seq![b@] + pr.0) =~= views(
                                    birds@.push(b),
                                ) + pr.0);
                            }
                        }
                        birds.push(b);
                        pos = j + 1;
                    } else if c == ']' {
                        proof {
                            let u = content@.skip(pos as int);
                            let u1 = content@.skip(j as int);
                            assert(u1[0] == ']');
                            assert(u1.skip(1) =~= content@.skip(j + 1));
                            assert(parse_birds_seq(u) == Option::Some(
                                (seq![b@], content@.skip(j + 1)),
                            ));
                        }
                        if j + 1 == n {
                            proof {
                                assert(content@.skip(j + 1) =~= Seq::<char>::empty());
                                assert(views(birds@.push(b)) =~= views(birds@) + seq![b@]);
                            }
                            birds.push(b);
                            return Some(birds);
                        } else {
                            proof {
                                assert(content@.skip(j + 1).len() > 0);
                            }
                            return None;
                        }
                    } else {
                        proof {
                            let u1 = content@.skip(j as int);
                            assert(u1[0] == c);
                            assert(u1.len() > 0);
                        }
                        return None;
                    }
                } else {
                    proof {
                        assert(content@.skip(j as int).len() == 0);
                    }
                    return None;
                }
            },
        }
    }
}

/// Load a collection from file content: the stored collection when the
/// content parses, and the empty collection otherwise.  This never fails,
/// by design: a malformed or empty file reads as an empty collection.
pub fn load_db(content: &str) -> (birds: Vec<Bird>)
    ensures
        match parse_db_spec(content@) {
            Option::Some(bs) => views(birds@) == bs,
            Option::None => birds@.len() == 0,
        },
        wf_birds(views(birds@)),
{
    match parse_db(content) {
        Some(v) => v,
        None => Vec::new(),
    }
}

} // verus!
