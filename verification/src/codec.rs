//! The storage format: a length-prefixed text encoding of a collection.
//!
//! Every length and count is written as exactly 20 decimal digits (enough for
//! any machine-sized value), so the format is self-delimiting and needs no
//! escaping: a string is its length followed by its characters verbatim.
//!
//! - collection: count of lists, then each list;
//! - list: name (length-prefixed), count of items, then each item;
//! - item: `x` (checked) or `o` (unchecked), then the text (length-prefixed).
//!
//! [`dec_collection`] is the exact specification of what parses; the central
//! result is [`lemma_decode_encode`]: decoding an encoded collection with
//! pairwise-distinct list names gives back exactly that collection.

use vstd::prelude::*;

use vstd::arithmetic::div_mod::{lemma_fundamental_div_mod, lemma_multiply_divide_lt};

use crate::error::StoreError;
use crate::model::{names_unique, Collection, Item, ItemV, List, ListV};

verus! {

// ---------------------------------------------------------------------------
// Digits
// ---------------------------------------------------------------------------

/// The digit character for a value below ten.
pub open spec fn char_of_digit(d: nat) -> char {
    if d == 0 {
        '0'
    } else if d == 1 {
        '1'
    } else if d == 2 {
        '2'
    } else if d == 3 {
        '3'
    } else if d == 4 {
        '4'
    } else if d == 5 {
        '5'
    } else if d == 6 {
        '6'
    } else if d == 7 {
        '7'
    } else if d == 8 {
        '8'
    } else {
        '9'
    }
}

/// Whether `c` is a decimal digit character.
pub open spec fn is_digit_char(c: char) -> bool {
    c == '0' || c == '1' || c == '2' || c == '3' || c == '4' || c == '5' || c == '6' || c == '7'
        || c == '8' || c == '9'
}

/// The value of a decimal digit character.
pub open spec fn digit_of_char(c: char) -> nat {
    if c == '0' {
        0
    } else if c == '1' {
        1
    } else if c == '2' {
        2
    } else if c == '3' {
        3
    } else if c == '4' {
        4
    } else if c == '5' {
        5
    } else if c == '6' {
        6
    } else if c == '7' {
        7
    } else if c == '8' {
        8
    } else {
        9
    }
}

/// Ten to the `w`.
pub open spec fn pow10(w: nat) -> nat
    decreases w,
{
    if w == 0 {
        1
    } else {
        10 * pow10((w - 1) as nat)
    }
}

/// `n` written as exactly `w` decimal digits, most significant first
/// (the value taken modulo ten to the `w`).
pub open spec fn enc_nat(n: nat, w: nat) -> Seq<char>
    decreases w,
{
    if w == 0 {
        Seq::empty()
    } else {
        enc_nat(n / 10, (w - 1) as nat).push(char_of_digit(n % 10))
    }
}

/// The value of a sequence of decimal digit characters.
pub open spec fn dec_digits(s: Seq<char>) -> nat
    decreases s.len(),
{
    if s.len() == 0 {
        0
    } else {
        dec_digits(s.drop_last()) * 10 + digit_of_char(s.last())
    }
}

/// Whether every character of `s` is a decimal digit.
pub open spec fn all_digits(s: Seq<char>) -> bool {
    forall|i: int| 0 <= i < s.len() ==> is_digit_char(s[i])
}

// ---------------------------------------------------------------------------
// The format, as encoders and decoders over character sequences.
// Each decoder consumes a prefix and yields the value and the remainder.
// ---------------------------------------------------------------------------

/// Reads a 20-digit length field.
pub open spec fn dec_len(s: Seq<char>) -> Option<(nat, Seq<char>)> {
    if s.len() >= 20 && all_digits(s.take(20)) {
        Some((dec_digits(s.take(20)), s.skip(20)))
    } else {
        None
    }
}

/// A string: its character count as 20 digits, then its characters verbatim.
pub open spec fn enc_str(t: Seq<char>) -> Seq<char> {
    enc_nat(t.len(), 20) + t
}

/// Reads a length-prefixed string.
pub open spec fn dec_str(s: Seq<char>) -> Option<(Seq<char>, Seq<char>)> {
    match dec_len(s) {
        Some((n, r)) => if n <= r.len() {
            Some((r.take(n as int), r.skip(n as int)))
        } else {
            None
        },
        None => None,
    }
}

/// An item: `x` or `o` for the checked flag, then the text.
pub open spec fn enc_item(it: ItemV) -> Seq<char> {
    seq![if it.checked { 'x' } else { 'o' }] + enc_str(it.text)
}

/// Reads one item.
pub open spec fn dec_item(s: Seq<char>) -> Option<(ItemV, Seq<char>)> {
    if s.len() >= 1 && (s[0] == 'x' || s[0] == 'o') {
        match dec_str(s.skip(1)) {
            Some((t, r)) => Some((ItemV { checked: s[0] == 'x', text: t }, r)),
            None => None,
        }
    } else {
        None
    }
}

/// The items in order, each encoding self-delimiting.
pub open spec fn enc_items(its: Seq<ItemV>) -> Seq<char>
    decreases its.len(),
{
    if its.len() == 0 {
        Seq::empty()
    } else {
        enc_item(its.first()) + enc_items(its.drop_first())
    }
}

/// Reads exactly `n` items.
pub open spec fn dec_items(s: Seq<char>, n: nat) -> Option<(Seq<ItemV>, Seq<char>)>
    decreases n,
{
    if n == 0 {
        Some((Seq::empty(), s))
    } else {
        match dec_item(s) {
            Some((it, r)) => match dec_items(r, (n - 1) as nat) {
                Some((its, r2)) => Some((seq![it] + its, r2)),
                None => None,
            },
            None => None,
        }
    }
}

/// A list: its name, its item count as 20 digits, then its items.
pub open spec fn enc_list(l: ListV) -> Seq<char> {
    enc_str(l.name) + enc_nat(l.items.len(), 20) + enc_items(l.items)
}

/// Reads one list.
pub open spec fn dec_list(s: Seq<char>) -> Option<(ListV, Seq<char>)> {
    match dec_str(s) {
        Some((name, r)) => match dec_len(r) {
            Some((n, r2)) => match dec_items(r2, n) {
                Some((its, r3)) => Some((ListV { name, items: its }, r3)),
                None => None,
            },
            None => None,
        },
        None => None,
    }
}

/// The lists in order.
pub open spec fn enc_lists(ls: Seq<ListV>) -> Seq<char>
    decreases ls.len(),
{
    if ls.len() == 0 {
        Seq::empty()
    } else {
        enc_list(ls.first()) + enc_lists(ls.drop_first())
    }
}

/// Reads exactly `n` lists.
pub open spec fn dec_lists(s: Seq<char>, n: nat) -> Option<(Seq<ListV>, Seq<char>)>
    decreases n,
{
    if n == 0 {
        Some((Seq::empty(), s))
    } else {
        match dec_list(s) {
            Some((l, r)) => match dec_lists(r, (n - 1) as nat) {
                Some((ls, r2)) => Some((seq![l] + ls, r2)),
                None => None,
            },
            None => None,
        }
    }
}

/// A collection: its list count as 20 digits, then its lists.
pub open spec fn enc_collection(ls: Seq<ListV>) -> Seq<char> {
    enc_nat(ls.len(), 20) + enc_lists(ls)
}

/// What a stored text means: the collection it encodes, or nothing. A text
/// parses exactly when its fields parse, nothing trails the last list, and
/// the list names are pairwise distinct.
pub open spec fn dec_collection(s: Seq<char>) -> Option<Seq<ListV>> {
    match dec_len(s) {
        Some((n, r)) => match dec_lists(r, n) {
            Some((ls, r2)) => if r2.len() == 0 && names_unique(ls) {
                Some(ls)
            } else {
                None
            },
            None => None,
        },
        None => None,
    }
}

// ---------------------------------------------------------------------------
// Size bounds: what the 20-digit fields can hold.
// ---------------------------------------------------------------------------

/// An item whose text length fits a 20-digit field.
pub open spec fn encodable_item(it: ItemV) -> bool {
    it.text.len() < pow10(20)
}

/// A list whose name, item count and items all fit their fields.
pub open spec fn encodable_list(l: ListV) -> bool {
    &&& l.name.len() < pow10(20)
    &&& l.items.len() < pow10(20)
    &&& forall|i: int| 0 <= i < l.items.len() ==> encodable_item(#[trigger] l.items[i])
}

/// A collection whose every length fits its field. Every collection held in
/// memory satisfies this: each length is machine-sized.
pub open spec fn encodable(ls: Seq<ListV>) -> bool {
    &&& ls.len() < pow10(20)
    &&& forall|i: int| 0 <= i < ls.len() ==> encodable_list(#[trigger] ls[i])
}

/// The exact value of ten to the twentieth, and that every `u64` (so every
/// machine-sized length) lies below it.
pub proof fn lemma_pow10_20()
    ensures
        pow10(20) == 100_000_000_000_000_000_000,
        u64::MAX < pow10(20),
{
    assert(pow10(0) == 1);
    assert(pow10(1) == 10);
    assert(pow10(2) == 100);
    assert(pow10(3) == 1000);
    assert(pow10(4) == 10000);
    assert(pow10(5) == 100000);
    assert(pow10(6) == 1000000);
    assert(pow10(7) == 10000000);
    assert(pow10(8) == 100000000);
    assert(pow10(9) == 1000000000);
    assert(pow10(10) == 10000000000);
    assert(pow10(11) == 100000000000);
    assert(pow10(12) == 1000000000000);
    assert(pow10(13) == 10000000000000);
    assert(pow10(14) == 100000000000000);
    assert(pow10(15) == 1000000000000000);
    assert(pow10(16) == 10000000000000000);
    assert(pow10(17) == 100000000000000000);
    assert(pow10(18) == 1000000000000000000);
    assert(pow10(19) == 10000000000000000000);
    assert(pow10(20) == 100_000_000_000_000_000_000);
}

/// Ten to the power is monotonic in the exponent.
pub proof fn lemma_pow10_mono(a: nat, b: nat)
    requires
        a <= b,
    ensures
        pow10(a) <= pow10(b),
        pow10(a) >= 1,
    decreases b,
{
    if b > 0 {
        lemma_pow10_mono(if a == b { (a - 1) as nat } else { a }, (b - 1) as nat);
    }
}

// ---------------------------------------------------------------------------
// Round trip: decoding an encoding gives the value back.
// ---------------------------------------------------------------------------

/// A fixed-width number field decodes to the number it was written from.
proof fn lemma_enc_nat_ok(n: nat, w: nat)
    requires
        n < pow10(w),
    ensures
        enc_nat(n, w).len() == w,
        all_digits(enc_nat(n, w)),
        dec_digits(enc_nat(n, w)) == n,
    decreases w,
{
    if w == 0 {
        assert(enc_nat(n, w) =~= Seq::<char>::empty());
    } else {
        lemma_multiply_divide_lt(n as int, 10, pow10((w - 1) as nat) as int);
        lemma_enc_nat_ok(n / 10, (w - 1) as nat);
        let prefix = enc_nat(n / 10, (w - 1) as nat);
        let d = n % 10;
        let e = enc_nat(n, w);
        assert(e == prefix.push(char_of_digit(d)));
        assert(e.drop_last() =~= prefix);
        assert(e.last() == char_of_digit(d));
        assert(digit_of_char(char_of_digit(d)) == d);
        lemma_fundamental_div_mod(n as int, 10);
        assert(dec_digits(e) == dec_digits(prefix) * 10 + d);
        assert forall|i: int| 0 <= i < e.len() implies is_digit_char(e[i]) by {
            if i < w - 1 {
                assert(e[i] == prefix[i]);
            }
        }
    }
}

/// Reading a length field after [`enc_nat`] yields the number and the rest.
proof fn lemma_dec_len_enc(n: nat, rest: Seq<char>)
    requires
        n < pow10(20),
    ensures
        dec_len(enc_nat(n, 20) + rest) == Some((n, rest)),
{
    lemma_enc_nat_ok(n, 20);
    let e = enc_nat(n, 20);
    let s = e + rest;
    assert(s.take(20) =~= e);
    assert(s.skip(20) =~= rest);
}

/// Reading a string after [`enc_str`] yields the string and the rest.
proof fn lemma_dec_str_enc(t: Seq<char>, rest: Seq<char>)
    requires
        t.len() < pow10(20),
    ensures
        dec_str(enc_str(t) + rest) == Some((t, rest)),
{
    let s = enc_str(t) + rest;
    assert(s =~= enc_nat(t.len(), 20) + (t + rest));
    lemma_dec_len_enc(t.len(), t + rest);
    assert((t + rest).take(t.len() as int) =~= t);
    assert((t + rest).skip(t.len() as int) =~= rest);
}

/// Reading an item after [`enc_item`] yields the item and the rest.
proof fn lemma_dec_item_enc(it: ItemV, rest: Seq<char>)
    requires
        encodable_item(it),
    ensures
        dec_item(enc_item(it) + rest) == Some((it, rest)),
{
    let c = if it.checked {
        'x'
    } else {
        'o'
    };
    let s = enc_item(it) + rest;
    assert(s[0] == c);
    assert(s.skip(1) =~= enc_str(it.text) + rest);
    lemma_dec_str_enc(it.text, rest);
    assert((ItemV { checked: s[0] == 'x', text: it.text }) =~= it);
}

/// Reading `n` items after [`enc_items`] of `n` items yields them in order.
proof fn lemma_dec_items_enc(its: Seq<ItemV>, rest: Seq<char>)
    requires
        forall|i: int| 0 <= i < its.len() ==> encodable_item(#[trigger] its[i]),
    ensures
        dec_items(enc_items(its) + rest, its.len()) == Some((its, rest)),
    decreases its.len(),
{
    if its.len() == 0 {
        assert(enc_items(its) + rest =~= rest);
        assert(dec_items(rest, 0) == Some((Seq::<ItemV>::empty(), rest)));
        assert(its =~= Seq::<ItemV>::empty());
    } else {
        let tail = its.drop_first();
        assert(enc_items(its) + rest =~= enc_item(its.first()) + (enc_items(tail) + rest));
        lemma_dec_item_enc(its.first(), enc_items(tail) + rest);
        assert(forall|i: int| 0 <= i < tail.len() ==> encodable_item(#[trigger] tail[i]));
        lemma_dec_items_enc(tail, rest);
        assert(seq![its.first()] + tail =~= its);
    }
}

/// Reading a list after [`enc_list`] yields the list and the rest.
proof fn lemma_dec_list_enc(l: ListV, rest: Seq<char>)
    requires
        encodable_list(l),
    ensures
        dec_list(enc_list(l) + rest) == Some((l, rest)),
{
    let mid = enc_nat(l.items.len(), 20) + enc_items(l.items);
    let s = enc_list(l) + rest;
    assert(s =~= enc_str(l.name) + (mid + rest));
    lemma_dec_str_enc(l.name, mid + rest);
    assert(mid + rest =~= enc_nat(l.items.len(), 20) + (enc_items(l.items) + rest));
    lemma_dec_len_enc(l.items.len(), enc_items(l.items) + rest);
    lemma_dec_items_enc(l.items, rest);
    assert((ListV { name: l.name, items: l.items }) =~= l);
}

/// Reading `n` lists after [`enc_lists`] of `n` lists yields them in order.
proof fn lemma_dec_lists_enc(ls: Seq<ListV>, rest: Seq<char>)
    requires
        forall|i: int| 0 <= i < ls.len() ==> encodable_list(#[trigger] ls[i]),
    ensures
        dec_lists(enc_lists(ls) + rest, ls.len()) == Some((ls, rest)),
    decreases ls.len(),
{
    if ls.len() == 0 {
        assert(enc_lists(ls) + rest =~= rest);
        assert(ls =~= Seq::<ListV>::empty());
    } else {
        let tail = ls.drop_first();
        assert(enc_lists(ls) + rest =~= enc_list(ls.first()) + (enc_lists(tail) + rest));
        lemma_dec_list_enc(ls.first(), enc_lists(tail) + rest);
        assert(forall|i: int| 0 <= i < tail.len() ==> encodable_list(#[trigger] tail[i]));
        lemma_dec_lists_enc(tail, rest);
        assert(seq![ls.first()] + tail =~= ls);
    }
}

/// Round trip: a collection with pairwise-distinct names, once encoded,
/// decodes to exactly itself — same lists, same items, same order.
pub proof fn lemma_decode_encode(ls: Seq<ListV>)
    requires
        encodable(ls),
        names_unique(ls),
    ensures
        dec_collection(enc_collection(ls)) == Some(ls),
{
    lemma_dec_len_enc(ls.len(), enc_lists(ls));
    lemma_dec_lists_enc(ls, Seq::empty());
    assert(enc_lists(ls) + Seq::<char>::empty() =~= enc_lists(ls));
}

// ---------------------------------------------------------------------------
// What a successful parse consumes (bounds the work a decoder can be asked
// to do: n items need at least n characters).
// ---------------------------------------------------------------------------

/// A parsed item consumes at least one character.
proof fn lemma_dec_item_consumes(s: Seq<char>)
    ensures
        dec_item(s) matches Some((it, r)) ==> r.len() < s.len(),
{
}

/// Parsing `n` items consumes at least `n` characters.
proof fn lemma_dec_items_bound(s: Seq<char>, n: nat)
    ensures
        dec_items(s, n) matches Some((its, r)) ==> n <= s.len() && r.len() <= s.len(),
    decreases n,
{
    if n > 0 {
        let step = dec_item(s);
        match step {
            Some((it, r1)) => {
                lemma_dec_item_consumes(s);
                lemma_dec_items_bound(r1, (n - 1) as nat);
            },
            None => {},
        }
    }
}

/// A parsed list consumes at least one character.
proof fn lemma_dec_list_consumes(s: Seq<char>)
    ensures
        dec_list(s) matches Some((l, r)) ==> r.len() < s.len(),
{
    let first = dec_str(s);
    match first {
        Some((name, r)) => {
            let second = dec_len(r);
            match second {
                Some((n, r2)) => {
                    lemma_dec_items_bound(r2, n);
                },
                None => {},
            }
        },
        None => {},
    }
}

/// Parsing `n` lists consumes at least `n` characters.
proof fn lemma_dec_lists_bound(s: Seq<char>, n: nat)
    ensures
        dec_lists(s, n) matches Some((ls, r)) ==> n <= s.len() && r.len() <= s.len(),
    decreases n,
{
    if n > 0 {
        let step = dec_list(s);
        match step {
            Some((l, r1)) => {
                lemma_dec_list_consumes(s);
                lemma_dec_lists_bound(r1, (n - 1) as nat);
            },
            None => {},
        }
    }
}


// ---------------------------------------------------------------------------
// Snoc forms of the encoders, for the encoding loops.
// ---------------------------------------------------------------------------

/// Appending one item extends the encoding at the end.
proof fn lemma_enc_items_snoc(its: Seq<ItemV>, it: ItemV)
    ensures
        enc_items(its.push(it)) == enc_items(its) + enc_item(it),
    decreases its.len(),
{
    let p = its.push(it);
    if its.len() == 0 {
        reveal_with_fuel(enc_items, 3);
        assert(p.first() == it);
        assert(p.drop_first() =~= Seq::<ItemV>::empty());
        assert(enc_items(p) =~= enc_items(its) + enc_item(it));
    } else {
        assert(p.first() == its.first());
        assert(p.drop_first() =~= its.drop_first().push(it));
        lemma_enc_items_snoc(its.drop_first(), it);
        assert(enc_items(p) =~= enc_items(its) + enc_item(it));
    }
}

/// Appending one list extends the encoding at the end.
proof fn lemma_enc_lists_snoc(ls: Seq<ListV>, l: ListV)
    ensures
        enc_lists(ls.push(l)) == enc_lists(ls) + enc_list(l),
    decreases ls.len(),
{
    let p = ls.push(l);
    if ls.len() == 0 {
        reveal_with_fuel(enc_lists, 3);
        assert(p.first() == l);
        assert(p.drop_first() =~= Seq::<ListV>::empty());
        assert(enc_lists(p) =~= enc_lists(ls) + enc_list(l));
    } else {
        assert(p.first() == ls.first());
        assert(p.drop_first() =~= ls.drop_first().push(l));
        lemma_enc_lists_snoc(ls.drop_first(), l);
        assert(enc_lists(p) =~= enc_lists(ls) + enc_list(l));
    }
}

// ---------------------------------------------------------------------------
// Encoding (executable)
// ---------------------------------------------------------------------------

/// The digit character for `d`, as a one-character string slice.
fn digit_str(d: u64) -> (r: &'static str)
    requires
        d < 10,
    ensures
        r@ == seq![char_of_digit(d as nat)],
{
    if d == 0 {
        proof {
            reveal_strlit("0");
            assert("0"@ =~= seq![char_of_digit(d as nat)]);
        }
        "0"
    } else if d == 1 {
        proof {
            reveal_strlit("1");
            assert("1"@ =~= seq![char_of_digit(d as nat)]);
        }
        "1"
    } else if d == 2 {
        proof {
            reveal_strlit("2");
            assert("2"@ =~= seq![char_of_digit(d as nat)]);
        }
        "2"
    } else if d == 3 {
        proof {
            reveal_strlit("3");
            assert("3"@ =~= seq![char_of_digit(d as nat)]);
        }
        "3"
    } else if d == 4 {
        proof {
            reveal_strlit("4");
            assert("4"@ =~= seq![char_of_digit(d as nat)]);
        }
        "4"
    } else if d == 5 {
        proof {
            reveal_strlit("5");
            assert("5"@ =~= seq![char_of_digit(d as nat)]);
        }
        "5"
    } else if d == 6 {
        proof {
            reveal_strlit("6");
            assert("6"@ =~= seq![char_of_digit(d as nat)]);
        }
        "6"
    } else if d == 7 {
        proof {
            reveal_strlit("7");
            assert("7"@ =~= seq![char_of_digit(d as nat)]);
        }
        "7"
    } else if d == 8 {
        proof {
            reveal_strlit("8");
            assert("8"@ =~= seq![char_of_digit(d as nat)]);
        }
        "8"
    } else {
        proof {
            reveal_strlit("9");
            assert("9"@ =~= seq![char_of_digit(d as nat)]);
        }
        "9"
    }
}

/// `n` written as exactly `w` decimal digits, most significant first.
fn encode_nat(n: u64, w: u64) -> (r: String)
    ensures
        r@ == enc_nat(n as nat, w as nat),
    decreases w,
{
    if w == 0 {
        let r = String::new();
        proof {
            assert(r@ =~= enc_nat(n as nat, 0));
        }
        r
    } else {
        let mut s = encode_nat(n / 10, w - 1);
        s.append(digit_str(n % 10));
        proof {
            assert(s@ =~= enc_nat(n as nat, w as nat));
        }
        s
    }
}

/// A length-prefixed string field.
fn encode_str(t: &str) -> (r: String)
    ensures
        r@ == enc_str(t@),
        t@.len() < pow10(20),
{
    let n = t.unicode_len();
    proof {
        lemma_pow10_20();
    }
    let mut s = encode_nat(n as u64, 20);
    s.append(t);
    proof {
        assert(s@ =~= enc_str(t@));
    }
    s
}

/// One item: its flag character, then its text field.
fn encode_item(it: &Item) -> (r: String)
    ensures
        r@ == enc_item(it@),
        encodable_item(it@),
{
    let mut s = String::new();
    if it.checked {
        s.append("x");
        proof {
            reveal_strlit("x");
        }
    } else {
        s.append("o");
        proof {
            reveal_strlit("o");
        }
    }
    let tail = encode_str(it.text.as_str());
    s.append(tail.as_str());
    proof {
        assert(s@ =~= enc_item(it@));
    }
    s
}

/// One list: its name field, its item count, then its items.
fn encode_list(l: &List) -> (r: String)
    ensures
        r@ == enc_list(l@),
        encodable_list(l@),
{
    let mut s = encode_str(l.name.as_str());
    let cnt = l.items.len();
    proof {
        lemma_pow10_20();
        assert(l@.items.len() == cnt);
    }
    let num = encode_nat(cnt as u64, 20);
    s.append(num.as_str());
    let mut i: usize = 0;
    proof {
        assert(enc_items(l@.items.take(0)) =~= Seq::<char>::empty());
        assert(s@ =~= enc_str(l@.name) + enc_nat(cnt as nat, 20) + enc_items(l@.items.take(0)));
    }
    while i < cnt
        invariant
            cnt == l.items.len(),
            i <= cnt,
            l@.items.len() == cnt,
            s@ == enc_str(l@.name) + enc_nat(cnt as nat, 20) + enc_items(l@.items.take(i as int)),
            forall|k: int| 0 <= k < i ==> encodable_item(#[trigger] l@.items[k]),
        decreases cnt - i,
    {
        let piece = encode_item(&l.items[i]);
        s.append(piece.as_str());
        proof {
            assert(l@.items[i as int] == l.items@[i as int]@);
            lemma_enc_items_snoc(l@.items.take(i as int), l@.items[i as int]);
            assert(l@.items.take(i + 1) =~= l@.items.take(i as int).push(l@.items[i as int]));
            assert(s@ =~= enc_str(l@.name) + enc_nat(cnt as nat, 20) + enc_items(
                l@.items.take(i + 1),
            ));
        }
        i += 1;
    }
    proof {
        assert(l@.items.take(cnt as int) =~= l@.items);
        assert(s@ =~= enc_list(l@));
    }
    s
}

/// The whole collection, as [`enc_collection`] describes. The second
/// conclusion records that every in-memory collection fits the format's
/// fixed-width fields.
pub fn encode_collection(c: &Collection) -> (r: String)
    ensures
        r@ == enc_collection(c@),
        encodable(c@),
{
    let cnt = c.lists.len();
    proof {
        lemma_pow10_20();
        assert(c@.len() == cnt);
    }
    let mut s = encode_nat(cnt as u64, 20);
    let mut i: usize = 0;
    proof {
        assert(enc_lists(c@.take(0)) =~= Seq::<char>::empty());
        assert(s@ =~= enc_nat(cnt as nat, 20) + enc_lists(c@.take(0)));
    }
    while i < cnt
        invariant
            cnt == c.lists.len(),
            i <= cnt,
            c@.len() == cnt,
            s@ == enc_nat(cnt as nat, 20) + enc_lists(c@.take(i as int)),
            forall|k: int| 0 <= k < i ==> encodable_list(#[trigger] c@[k]),
        decreases cnt - i,
    {
        let piece = encode_list(&c.lists[i]);
        s.append(piece.as_str());
        proof {
            assert(c@[i as int] == c.lists@[i as int]@);
            lemma_enc_lists_snoc(c@.take(i as int), c@[i as int]);
            assert(c@.take(i + 1) =~= c@.take(i as int).push(c@[i as int]));
            assert(s@ =~= enc_nat(cnt as nat, 20) + enc_lists(c@.take(i + 1)));
        }
        i += 1;
    }
    proof {
        assert(c@.take(cnt as int) =~= c@);
    }
    s
}

// ---------------------------------------------------------------------------
// Decoding (executable)
// ---------------------------------------------------------------------------

/// The value of a digit character, or `None` for any other character.
fn digit_val(c: char) -> (r: Option<u64>)
    ensures
        match r {
            Some(d) => is_digit_char(c) && d < 10 && d as nat == digit_of_char(c),
            None => !is_digit_char(c),
        },
{
    if c == '0' {
        Some(0)
    } else if c == '1' {
        Some(1)
    } else if c == '2' {
        Some(2)
    } else if c == '3' {
        Some(3)
    } else if c == '4' {
        Some(4)
    } else if c == '5' {
        Some(5)
    } else if c == '6' {
        Some(6)
    } else if c == '7' {
        Some(7)
    } else if c == '8' {
        Some(8)
    } else if c == '9' {
        Some(9)
    } else {
        None
    }
}

/// Reads a 20-digit length field at `pos`, as [`dec_len`] on the suffix.
fn read_nat20(s: &str, pos: usize) -> (r: Option<(u128, usize)>)
    requires
        pos <= s@.len(),
    ensures
        match r {
            Some((n, p2)) => {
                &&& dec_len(s@.skip(pos as int)) == Some((n as nat, s@.skip(p2 as int)))
                &&& p2 == pos + 20
                &&& p2 <= s@.len()
            },
            None => dec_len(s@.skip(pos as int)) == None::<(nat, Seq<char>)>,
        },
{
    let total = s.unicode_len();
    if total - pos < 20 {
        proof {
            assert(s@.skip(pos as int).len() < 20);
        }
        return None;
    }
    let ghost suf = s@.skip(pos as int);
    let mut acc: u128 = 0;
    let mut i: usize = 0;
    proof {
        assert(suf.take(0) =~= Seq::<char>::empty());
    }
    while i < 20
        invariant
            pos + 20 <= s@.len(),
            s@.len() <= usize::MAX,
            suf == s@.skip(pos as int),
            i <= 20,
            all_digits(suf.take(i as int)),
            acc as nat == dec_digits(suf.take(i as int)),
            acc < pow10(i as nat),
        decreases 20 - i,
    {
        let c = s.get_char(pos + i);
        proof {
            assert(suf[i as int] == c);
        }
        match digit_val(c) {
            None => {
                proof {
                    assert(suf.take(20)[i as int] == c);
                    assert(!all_digits(suf.take(20)));
                }
                return None;
            },
            Some(d) => {
                proof {
                    lemma_pow10_20();
                    lemma_pow10_mono((i + 1) as nat, 20);
                    assert(pow10((i + 1) as nat) == 10 * pow10(i as nat));
                }
                acc = acc * 10 + d as u128;
                proof {
                    assert(suf.take(i + 1).drop_last() =~= suf.take(i as int));
                    assert(suf.take(i + 1).last() == suf[i as int]);
                    assert(acc as nat == dec_digits(suf.take(i + 1)));
                    assert forall|k: int| 0 <= k < i + 1 implies is_digit_char(
                        #[trigger] suf.take(i + 1)[k],
                    ) by {
                        if k < i {
                            assert(suf.take(i as int)[k] == suf.take(i + 1)[k]);
                        }
                    }
                }
                i += 1;
            },
        }
    }
    proof {
        assert(suf.take(20).len() == 20);
        assert(dec_digits(suf.take(20)) == acc as nat);
        assert(suf.skip(20) =~= s@.skip(pos as int + 20));
    }
    Some((acc, pos + 20))
}

/// Reads a length-prefixed string at `pos`, as [`dec_str`] on the suffix.
fn read_str(s: &str, pos: usize) -> (r: Option<(String, usize)>)
    requires
        pos <= s@.len(),
    ensures
        match r {
            Some((t, p2)) => {
                &&& dec_str(s@.skip(pos as int)) == Some((t@, s@.skip(p2 as int)))
                &&& p2 <= s@.len()
            },
            None => dec_str(s@.skip(pos as int)) == None::<(Seq<char>, Seq<char>)>,
        },
{
    match read_nat20(s, pos) {
        None => None,
        Some((n, p1)) => {
            let total = s.unicode_len();
            if n <= (total - p1) as u128 {
                let nn = n as usize;
                let piece = s.substring_char(p1, p1 + nn);
                let t = piece.to_owned();
                proof {
                    assert(s@.skip(p1 as int).take(n as int) =~= s@.subrange(
                        p1 as int,
                        p1 as int + n as int,
                    ));
                    assert(s@.skip(p1 as int).skip(n as int) =~= s@.skip(p1 as int + n as int));
                }
                Some((t, p1 + nn))
            } else {
                proof {
                    assert(s@.skip(p1 as int).len() < n);
                }
                None
            }
        },
    }
}

/// Reads one item at `pos`, as [`dec_item`] on the suffix.
fn read_item(s: &str, pos: usize) -> (r: Option<(Item, usize)>)
    requires
        pos <= s@.len(),
    ensures
        match r {
            Some((it, p2)) => {
                &&& dec_item(s@.skip(pos as int)) == Some((it@, s@.skip(p2 as int)))
                &&& p2 <= s@.len()
            },
            None => dec_item(s@.skip(pos as int)) == None::<(ItemV, Seq<char>)>,
        },
{
    let total = s.unicode_len();
    if pos < total {
        let c = s.get_char(pos);
        proof {
            assert(s@.skip(pos as int)[0] == c);
        }
        if c == 'x' || c == 'o' {
            proof {
                assert(s@.skip(pos as int).skip(1) =~= s@.skip(pos as int + 1));
            }
            match read_str(s, pos + 1) {
                Some((t, p2)) => {
                    let it = Item { checked: c == 'x', text: t };
                    proof {
                        assert(it@ =~= (ItemV {
                            checked: s@.skip(pos as int)[0] == 'x',
                            text: t@,
                        }));
                    }
                    Some((it, p2))
                },
                None => None,
            }
        } else {
            None
        }
    } else {
        proof {
            assert(s@.skip(pos as int).len() == 0);
        }
        None
    }
}

/// Reads exactly `count` items at `pos`, as [`dec_items`] on the suffix.
fn read_items(s: &str, pos: usize, count: usize) -> (r: Option<(Vec<Item>, usize)>)
    requires
        pos <= s@.len(),
    ensures
        match r {
            Some((v, p2)) => {
                &&& dec_items(s@.skip(pos as int), count as nat) == Some(
                    (v@.map_values(|it: Item| it@), s@.skip(p2 as int)),
                )
                &&& p2 <= s@.len()
            },
            None => dec_items(s@.skip(pos as int), count as nat) == None::<(
                Seq<ItemV>,
                Seq<char>,
            )>,
        },
    decreases count,
{
    if count == 0 {
        let v: Vec<Item> = Vec::new();
        proof {
            assert(v@.map_values(|it: Item| it@) =~= Seq::<ItemV>::empty());
        }
        Some((v, pos))
    } else {
        match read_item(s, pos) {
            None => None,
            Some((it, p1)) => {
                match read_items(s, p1, count - 1) {
                    None => None,
                    Some((tail, p2)) => {
                        let ghost tail_view = tail@;
                        let ghost it_v = it@;
                        let mut v = tail;
                        v.insert(0, it);
                        proof {
                            assert(v@ == tail_view.insert(0, it));
                            assert forall|k: int| 0 <= k < v@.len() implies #[trigger] v@[k]@ == (
                            seq![it_v] + tail_view.map_values(|x: Item| x@))[k] by {
                                if k == 0 {
                                    assert(v@[0] == it);
                                } else {
                                    assert(v@[k] == tail_view[k - 1]);
                                    assert(tail_view.map_values(|x: Item| x@)[k - 1]
                                        == tail_view[k - 1]@);
                                }
                            }
                            assert(v@.map_values(|x: Item| x@) =~= seq![it_v]
                                + tail_view.map_values(|x: Item| x@));
                            assert(v@.map_values(|it2: Item| it2@) =~= v@.map_values(
                                |x: Item| x@,
                            ));
                        }
                        Some((v, p2))
                    },
                }
            },
        }
    }
}

/// Reads one list at `pos`, as [`dec_list`] on the suffix.
fn read_list(s: &str, pos: usize) -> (r: Option<(List, usize)>)
    requires
        pos <= s@.len(),
    ensures
        match r {
            Some((l, p2)) => {
                &&& dec_list(s@.skip(pos as int)) == Some((l@, s@.skip(p2 as int)))
                &&& p2 <= s@.len()
            },
            None => dec_list(s@.skip(pos as int)) == None::<(ListV, Seq<char>)>,
        },
{
    match read_str(s, pos) {
        None => None,
        Some((name, p1)) => {
            match read_nat20(s, p1) {
                None => None,
                Some((cnt, p2)) => {
                    let total = s.unicode_len();
                    if cnt <= (total - p2) as u128 {
                        match read_items(s, p2, cnt as usize) {
                            None => None,
                            Some((items, p3)) => {
                                let l = List { name, items };
                                Some((l, p3))
                            },
                        }
                    } else {
                        proof {
                            lemma_dec_items_bound(s@.skip(p2 as int), cnt as nat);
                        }
                        None
                    }
                },
            }
        },
    }
}

/// Reads exactly `count` lists at `pos`, as [`dec_lists`] on the suffix.
fn read_lists(s: &str, pos: usize, count: usize) -> (r: Option<(Vec<List>, usize)>)
    requires
        pos <= s@.len(),
    ensures
        match r {
            Some((v, p2)) => {
                &&& dec_lists(s@.skip(pos as int), count as nat) == Some(
                    (v@.map_values(|l: List| l@), s@.skip(p2 as int)),
                )
                &&& p2 <= s@.len()
            },
            None => dec_lists(s@.skip(pos as int), count as nat) == None::<(
                Seq<ListV>,
                Seq<char>,
            )>,
        },
    decreases count,
{
    if count == 0 {
        let v: Vec<List> = Vec::new();
        proof {
            assert(v@.map_values(|l: List| l@) =~= Seq::<ListV>::empty());
        }
        Some((v, pos))
    } else {
        match read_list(s, pos) {
            None => None,
            Some((l, p1)) => {
                match read_lists(s, p1, count - 1) {
                    None => None,
                    Some((tail, p2)) => {
                        let ghost tail_view = tail@;
                        let ghost l_v = l@;
                        let mut v = tail;
                        v.insert(0, l);
                        proof {
                            assert(v@ == tail_view.insert(0, l));
                            assert forall|k: int| 0 <= k < v@.len() implies #[trigger] v@[k]@ == (
                            seq![l_v] + tail_view.map_values(|x: List| x@))[k] by {
                                if k == 0 {
                                    assert(v@[0] == l);
                                } else {
                                    assert(v@[k] == tail_view[k - 1]);
                                    assert(tail_view.map_values(|x: List| x@)[k - 1]
                                        == tail_view[k - 1]@);
                                }
                            }
                            assert(v@.map_values(|x: List| x@) =~= seq![l_v]
                                + tail_view.map_values(|x: List| x@));
                            assert(v@.map_values(|l2: List| l2@) =~= v@.map_values(
                                |x: List| x@,
                            ));
                        }
                        Some((v, p2))
                    },
                }
            },
        }
    }
}

/// Whether the list names are pairwise distinct.
fn check_names_unique(lists: &Vec<List>) -> (r: bool)
    ensures
        r == names_unique(lists@.map_values(|l: List| l@)),
{
    let ghost ls = lists@.map_values(|l: List| l@);
    let n = lists.len();
    let mut i: usize = 0;
    while i < n
        invariant
            n == lists.len(),
            ls == lists@.map_values(|l: List| l@),
            i <= n,
            forall|a: int, b: int| 0 <= a < b < n && a < i ==> ls[a].name != ls[b].name,
        decreases n - i,
    {
        let mut j: usize = i + 1;
        while j < n
            invariant
                n == lists.len(),
                ls == lists@.map_values(|l: List| l@),
                i < n,
                i + 1 <= j <= n,
                forall|b: int| i < b < j ==> ls[i as int].name != ls[b].name,
            decreases n - j,
        {
            if lists[i].name == lists[j].name {
                proof {
                    assert(ls[i as int].name == ls[j as int].name);
                    assert(!names_unique(ls));
                }
                return false;
            }
            j += 1;
        }
        i += 1;
    }
    true
}

/// Parses a stored text: returns the collection it encodes, well-formed, or
/// fails with `CorruptFormat` exactly when [`dec_collection`] yields nothing.
pub fn decode_collection(s: &str) -> (r: Result<Collection, StoreError>)
    ensures
        match r {
            Ok(c) => dec_collection(s@) == Some(c@) && c.wf(),
            Err(e) => e == StoreError::CorruptFormat && dec_collection(s@) == None::<Seq<ListV>>,
        },
{
    proof {
        assert(s@.skip(0) =~= s@);
    }
    match read_nat20(s, 0) {
        None => Err(StoreError::CorruptFormat),
        Some((cnt, p1)) => {
            let total = s.unicode_len();
            if cnt <= (total - p1) as u128 {
                match read_lists(s, p1, cnt as usize) {
                    None => Err(StoreError::CorruptFormat),
                    Some((lists, p2)) => {
                        if p2 == total {
                            proof {
                                assert(s@.skip(p2 as int).len() == 0);
                            }
                            if check_names_unique(&lists) {
                                let c = Collection { lists };
                                Ok(c)
                            } else {
                                Err(StoreError::CorruptFormat)
                            }
                        } else {
                            proof {
                                assert(s@.skip(p2 as int).len() != 0);
                            }
                            Err(StoreError::CorruptFormat)
                        }
                    },
                }
            } else {
                proof {
                    lemma_dec_lists_bound(s@.skip(p1 as int), cnt as nat);
                }
                Err(StoreError::CorruptFormat)
            }
        },
    }
}


} // verus!
