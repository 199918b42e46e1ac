use vstd::prelude::*;

use crate::bencode::object::{nodes_of, Dictionary, Node, Object, ObjectType, Value};

verus! {

pub const DICTIONARY_START: u8 = 100;  // 'd'

pub const DICTIONARY_END: u8 = 101;  // 'e'

pub const LIST_START: u8 = 108;  // 'l'

pub const LIST_END: u8 = 101;  // 'e'

pub const NUMBER_START: u8 = 105;  // 'i'

pub const NUMBER_END: u8 = 101;  // 'e'

pub const BYTE_ARRAY_DIVIDER: u8 = 58;  // ':'

pub const ZERO_BYTE: u8 = 48;  // '0'

pub const NINE_BYTE: u8 = 57;  // '9'

pub const PLUS_SIGN: u8 = 43;  // '+'

pub const MINUS_SIGN: u8 = 45;  // '-'

// ---------------------------------------------------------------------------
// The grammar, as this decoder reads it.
// ---------------------------------------------------------------------------

pub open spec fn is_digit(b: u8) -> bool {
    ZERO_BYTE <= b <= NINE_BYTE
}

pub open spec fn all_digits(s: Seq<u8>) -> bool {
    forall|i: int| 0 <= i < s.len() ==> is_digit(#[trigger] s[i])
}

/// The number that a string of decimal digits denotes.
pub open spec fn digits_value(s: Seq<u8>) -> nat
    decreases s.len(),
{
    if s.len() == 0 {
        0
    } else {
        digits_value(s.drop_last()) * 10 + (s.last() - ZERO_BYTE) as nat
    }
}

/// A number text with more than one character that starts with `0`.
pub open spec fn leading_zero(t: Seq<u8>) -> bool {
    t.len() > 1 && t[0] == ZERO_BYTE
}

/// The text without a leading `+`.
pub open spec fn unsigned_digits(t: Seq<u8>) -> Seq<u8> {
    if t.len() > 0 && t[0] == PLUS_SIGN {
        t.drop_first()
    } else {
        t
    }
}

/// The value of a `usize` written as `usize::from_str` reads it: an optional
/// `+`, then one or more digits, within range.
pub open spec fn usize_text(t: Seq<u8>) -> Option<nat> {
    let d = unsigned_digits(t);
    if d.len() > 0 && all_digits(d) && digits_value(d) <= usize::MAX {
        Some(digits_value(d))
    } else {
        None
    }
}

/// The value of an `i64` written as `i64::from_str` reads it: an optional
/// `+` or `-`, then one or more digits, within range.
pub open spec fn i64_text(t: Seq<u8>) -> Option<int> {
    if t.len() > 0 && t[0] == MINUS_SIGN {
        let d = t.drop_first();
        if d.len() > 0 && all_digits(d) && digits_value(d) <= 0x8000_0000_0000_0000 {
            Some(-(digits_value(d) as int))
        } else {
            None
        }
    } else {
        let d = unsigned_digits(t);
        if d.len() > 0 && all_digits(d) && digits_value(d) <= i64::MAX {
            Some(digits_value(d) as int)
        } else {
            None
        }
    }
}

/// The first position at or after `pos` that holds `t`.
pub open spec fn find_byte(s: Seq<u8>, pos: int, t: u8) -> Option<int>
    decreases s.len() - pos,
{
    if pos < 0 || pos >= s.len() {
        None
    } else if s[pos] == t {
        Some(pos)
    } else {
        find_byte(s, pos + 1, t)
    }
}

/// A byte string `<length>:<bytes>` at `pos`: its bytes, and where it ends.
pub open spec fn parse_byte_string(s: Seq<u8>, pos: int) -> Option<(Seq<u8>, int)> {
    match find_byte(s, pos, BYTE_ARRAY_DIVIDER) {
        None => None,
        Some(t) => {
            let text = s.subrange(pos, t);
            if leading_zero(text) {
                None
            } else {
                match usize_text(text) {
                    None => None,
                    Some(n) => if t + 1 + n <= s.len() {
                        Some((s.subrange(t + 1, t + 1 + n), t + 1 + n))
                    } else {
                        None
                    },
                }
            }
        },
    }
}

/// A number `i<digits>e` whose `i` is at `pos`: its value, and where it ends.
pub open spec fn parse_number(s: Seq<u8>, pos: int) -> Option<(i64, int)> {
    match find_byte(s, pos + 1, NUMBER_END) {
        None => None,
        Some(t) => {
            let text = s.subrange(pos + 1, t);
            if text.len() == 0 || leading_zero(text) {
                None
            } else {
                match i64_text(text) {
                    None => None,
                    Some(n) => Some((n as i64, t + 1)),
                }
            }
        },
    }
}

/// The object that starts at `pos`, and where it ends.
pub open spec fn parse_object(s: Seq<u8>, pos: int) -> Option<(Node, int)>
    decreases s.len() - pos, 0int,
{
    if pos < 0 || pos >= s.len() {
        None
    } else if s[pos] == DICTIONARY_START {
        match parse_dict_entries(s, pos + 1, Map::empty()) {
            Some((m, end)) => Some(
                (Node { value: Value::Dictionary(m), bytes: s.subrange(pos, end) }, end),
            ),
            None => None,
        }
    } else if s[pos] == LIST_START {
        match parse_list_items(s, pos + 1, Seq::empty()) {
            Some((items, end)) => Some(
                (Node { value: Value::List(items), bytes: s.subrange(pos, end) }, end),
            ),
            None => None,
        }
    } else if s[pos] == NUMBER_START {
        match parse_number(s, pos) {
            Some((n, end)) => Some((Node { value: Value::Number(n), bytes: s.subrange(pos, end) }, end)),
            None => None,
        }
    } else if is_digit(s[pos]) {
        match parse_byte_string(s, pos) {
            Some((b, end)) => Some(
                (Node { value: Value::ByteArray(b), bytes: s.subrange(pos, end) }, end),
            ),
            None => None,
        }
    } else {
        None
    }
}

/// The items of a list from `pos` on, after the items `acc`: the list ends at
/// `e` or at the end of the input. Every object takes at least one byte.
pub open spec fn parse_list_items(s: Seq<u8>, pos: int, acc: Seq<Node>) -> Option<(Seq<Node>, int)>
    decreases s.len() - pos, 1int,
{
    if pos < 0 {
        None
    } else if pos >= s.len() {
        Some((acc, pos))
    } else if s[pos] == LIST_END {
        Some((acc, pos + 1))
    } else {
        match parse_object(s, pos) {
            None => None,
            Some((n, next)) => if next <= pos || next > s.len() {
                None
            } else {
                parse_list_items(s, next, acc.push(n))
            },
        }
    }
}

/// The entries of a dictionary from `pos` on, added to `acc`: a byte-string
/// key and an object each, a later key overriding an earlier one. The
/// dictionary ends at `e` or at the end of the input.
pub open spec fn parse_dict_entries(s: Seq<u8>, pos: int, acc: Map<Seq<u8>, Node>) -> Option<
    (Map<Seq<u8>, Node>, int),
>
    decreases s.len() - pos, 1int,
{
    if pos < 0 {
        None
    } else if pos >= s.len() {
        Some((acc, pos))
    } else if s[pos] == DICTIONARY_END {
        Some((acc, pos + 1))
    } else {
        match parse_byte_string(s, pos) {
            None => None,
            Some((key, kend)) => if kend <= pos || kend > s.len() {
                None
            } else {
                match parse_object(s, kend) {
                    None => None,
                    Some((v, vend)) => if vend <= kend || vend > s.len() {
                        None
                    } else {
                        parse_dict_entries(s, vend, acc.insert(key, v))
                    },
                }
            },
        }
    }
}

/// Whether `bytes` starts with an object that the decoder accepts.
pub open spec fn decodable(bytes: Seq<u8>) -> bool {
    parse_object(bytes, 0) is Some
}

/// The object that `bytes` starts with.
pub open spec fn decoded(bytes: Seq<u8>) -> Node {
    parse_object(bytes, 0).unwrap().0
}


// ---------------------------------------------------------------------------
// Where decoded objects come from.
// ---------------------------------------------------------------------------

proof fn lemma_find_byte(s: Seq<u8>, pos: int, t: u8)
    ensures
        find_byte(s, pos, t) matches Some(i) ==> pos <= i < s.len() && s[i] == t,
    decreases s.len() - pos,
{
    if 0 <= pos < s.len() && s[pos] != t {
        lemma_find_byte(s, pos + 1, t);
    }
}

/// A decoded object ends after it starts, within the input, and carries
/// exactly the bytes it was decoded from.
pub proof fn lemma_object_span(s: Seq<u8>, pos: int)
    ensures
        parse_object(s, pos) matches Some((n, end)) ==> pos < end <= s.len() && n.bytes == s.subrange(
            pos,
            end,
        ),
    decreases s.len() - pos, 0int,
{
    if 0 <= pos < s.len() {
        if s[pos] == DICTIONARY_START {
            lemma_dict_span(s, pos + 1, Map::empty());
        } else if s[pos] == LIST_START {
            lemma_list_span(s, pos + 1, Seq::empty());
        } else if s[pos] == NUMBER_START {
            lemma_find_byte(s, pos + 1, NUMBER_END);
        } else {
            lemma_find_byte(s, pos, BYTE_ARRAY_DIVIDER);
        }
    }
}

proof fn lemma_list_span(s: Seq<u8>, pos: int, acc: Seq<Node>)
    requires
        0 <= pos <= s.len(),
    ensures
        parse_list_items(s, pos, acc) matches Some((_, end)) ==> pos <= end <= s.len(),
    decreases s.len() - pos, 1int,
{
    if pos < s.len() && s[pos] != LIST_END {
        lemma_object_span(s, pos);
        if let Some((n, next)) = parse_object(s, pos) {
            lemma_list_span(s, next, acc.push(n));
        }
    }
}

proof fn lemma_dict_span(s: Seq<u8>, pos: int, acc: Map<Seq<u8>, Node>)
    requires
        0 <= pos <= s.len(),
    ensures
        parse_dict_entries(s, pos, acc) matches Some((m, end)) ==> {
            &&& pos <= end <= s.len()
            &&& forall|k: Seq<u8>|
                #[trigger] m.contains_key(k) ==> (acc.contains_key(k) && m[k] == acc[k]) || exists|
                    a: int,
                    b: int,
                | pos <= a < b <= end && parse_object(s, a) == Some((m[k], b))
        },
    decreases s.len() - pos, 1int,
{
    if pos < s.len() && s[pos] != DICTIONARY_END {
        if let Some((key, kend)) = parse_byte_string(s, pos) {
            if pos < kend <= s.len() {
                lemma_object_span(s, kend);
                if let Some((v, vend)) = parse_object(s, kend) {
                    let acc2 = acc.insert(key, v);
                    lemma_dict_span(s, vend, acc2);
                    if let Some((m, end)) = parse_dict_entries(s, vend, acc2) {
                        assert forall|k: Seq<u8>| #[trigger] m.contains_key(k) implies (acc.contains_key(k)
                            && m[k] == acc[k]) || exists|a: int, b: int|
                            pos <= a < b <= end && parse_object(s, a) == Some((m[k], b)) by {
                            if acc2.contains_key(k) && m[k] == acc2[k] {
                                if k == key {
                                    assert(parse_object(s, kend) == Some((m[k], vend)));
                                }
                            } else {
                                let (a, b) = choose|a: int, b: int|
                                    vend <= a < b <= end && parse_object(s, a) == Some((m[k], b));
                                assert(pos <= a < b <= end && parse_object(s, a) == Some((m[k], b)));
                            }
                        }
                    }
                }
            }
        }
    }
}

/// Every value of a decoded dictionary is the object that decodes from some
/// stretch of the input, inside the dictionary; so it carries exactly the
/// bytes that it was decoded from.
pub proof fn lemma_dictionary_values_from_input(s: Seq<u8>)
    requires
        decodable(s),
        decoded(s).value is Dictionary,
    ensures
        forall|k: Seq<u8>|
            #[trigger] decoded(s).value->Dictionary_0.contains_key(k) ==> exists|a: int, b: int|
                0 < a < b <= s.len() && parse_object(s, a) == Some((decoded(s).value->Dictionary_0[k], b))
                    && decoded(s).value->Dictionary_0[k].bytes == s.subrange(a, b),
{
    lemma_dict_span(s, 1, Map::empty());
    lemma_object_span(s, 0);
    let m = decoded(s).value->Dictionary_0;
    assert forall|k: Seq<u8>| #[trigger] m.contains_key(k) implies exists|a: int, b: int|
        0 < a < b <= s.len() && parse_object(s, a) == Some((m[k], b)) && m[k].bytes == s.subrange(a, b) by {
        let (a, b) = choose|a: int, b: int| 1 <= a < b <= s.len() && parse_object(s, a) == Some((m[k], b));
        lemma_object_span(s, a);
    }
}

// ---------------------------------------------------------------------------
// Numbers.
// ---------------------------------------------------------------------------

proof fn lemma_digits_prefix(d: Seq<u8>, k: int)
    requires
        0 <= k <= d.len(),
    ensures
        digits_value(d.take(k)) <= digits_value(d),
    decreases d.len(),
{
    if k < d.len() {
        lemma_digits_prefix(d.drop_last(), k);
        assert(d.drop_last().take(k) =~= d.take(k));
    } else {
        assert(d.take(k) =~= d);
    }
}

/// The decimal digits of `n`, most significant first, as ASCII bytes.
pub open spec fn decimal_digits(n: nat) -> Seq<u8>
    decreases n,
{
    if n < 10 {
        seq![(ZERO_BYTE + n) as u8]
    } else {
        decimal_digits(n / 10).push((ZERO_BYTE + n % 10) as u8)
    }
}

/// The decimal digits of `n` are digits, at least one, denote `n`, and start
/// with `0` only where `n` is 0.
proof fn lemma_decimal_digits(n: nat)
    ensures
        decimal_digits(n).len() > 0,
        all_digits(decimal_digits(n)),
        digits_value(decimal_digits(n)) == n,
        !leading_zero(decimal_digits(n)),
        n > 0 ==> decimal_digits(n)[0] != ZERO_BYTE,
    decreases n,
{
    if n >= 10 {
        lemma_decimal_digits(n / 10);
        let d = decimal_digits(n);
        assert(d.drop_last() =~= decimal_digits(n / 10));
        assert(d[0] == decimal_digits(n / 10)[0]);
        assert(d.last() == (ZERO_BYTE + n % 10) as u8);
        assert((d.last() - ZERO_BYTE) as nat == n % 10);
        assert(n == (n / 10) * 10 + n % 10) by (nonlinear_arith);
        assert(digits_value(d) == digits_value(d.drop_last()) * 10 + (d.last() - ZERO_BYTE) as nat);
        assert forall|i: int| 0 <= i < d.len() implies is_digit(#[trigger] d[i]) by {
            if i < d.len() - 1 {
                assert(d[i] == decimal_digits(n / 10)[i]);
            }
        }
        assert(digits_value(d.drop_last()) == n / 10);
    } else {
        let d = decimal_digits(n);
        assert(d.drop_last() =~= Seq::<u8>::empty());
        assert(digits_value(d.drop_last()) == 0);
        assert(digits_value(d) == digits_value(d.drop_last()) * 10 + (d.last() - ZERO_BYTE) as nat);
    }
}

/// `usize_text` reads the decimal digits of every `usize` as that number, so
/// a byte string may have any length that a `usize` holds.
pub proof fn lemma_usize_text_reads_every_usize(n: nat)
    requires
        n <= usize::MAX,
    ensures
        usize_text(decimal_digits(n)) == Some(n),
{
    lemma_decimal_digits(n);
    assert(decimal_digits(n)[0] != PLUS_SIGN);
}

/// `i64_text` reads the decimal digits of every `i64`, with a `-` before a
/// negative one, as that number.
pub proof fn lemma_i64_text_reads_every_i64(n: int)
    requires
        i64::MIN <= n <= i64::MAX,
    ensures
        n >= 0 ==> i64_text(decimal_digits(n as nat)) == Some(n),
        n < 0 ==> i64_text(seq![MINUS_SIGN] + decimal_digits((-n) as nat)) == Some(n),
{
    if n >= 0 {
        lemma_decimal_digits(n as nat);
        assert(decimal_digits(n as nat)[0] != PLUS_SIGN);
        assert(decimal_digits(n as nat)[0] != MINUS_SIGN);
    } else {
        lemma_decimal_digits((-n) as nat);
        assert((seq![MINUS_SIGN] + decimal_digits((-n) as nat)).drop_first() =~= decimal_digits((-n) as nat));
    }
}

/// Where every byte from `pos` up to `t` differs from `b` and `t` holds it,
/// the first `b` at or after `pos` is at `t`.
proof fn lemma_find_byte_at(s: Seq<u8>, pos: int, t: int, b: u8)
    requires
        0 <= pos <= t < s.len(),
        s[t] == b,
        forall|i: int| pos <= i < t ==> s[i] != b,
    ensures
        find_byte(s, pos, b) == Some(t),
    decreases t - pos,
{
    if pos < t {
        lemma_find_byte_at(s, pos + 1, t, b);
    }
}

/// A byte string of any length that a `usize` holds, written as its length
/// in decimal, `:` and its bytes, reads back as those bytes, whatever
/// follows it.
pub proof fn lemma_byte_string_of_any_length(b: Seq<u8>, rest: Seq<u8>)
    requires
        b.len() <= usize::MAX,
    ensures
        parse_byte_string(decimal_digits(b.len()) + seq![BYTE_ARRAY_DIVIDER] + b + rest, 0) == Some(
            (b, (decimal_digits(b.len()).len() + 1 + b.len()) as int),
        ),
{
    let d = decimal_digits(b.len());
    let s = d + seq![BYTE_ARRAY_DIVIDER] + b + rest;
    lemma_decimal_digits(b.len());
    lemma_usize_text_reads_every_usize(b.len());
    assert forall|i: int| 0 <= i < d.len() implies s[i] != BYTE_ARRAY_DIVIDER by {
        assert(s[i] == d[i]);
        assert(is_digit(d[i]));
    }
    lemma_find_byte_at(s, 0, d.len() as int, BYTE_ARRAY_DIVIDER);
    assert(s.subrange(0, d.len() as int) =~= d);
    assert(s.subrange(d.len() + 1 as int, d.len() + 1 + b.len() as int) =~= b);
}

/// The value of a string of digits, if it is one and the value fits in a `u64`.
#[verifier::loop_isolation(false)]
fn digits_to_u64(d: &[u8]) -> (res: Option<u64>)
    ensures
        match res {
            Some(v) => all_digits(d@) && v == digits_value(d@),
            None => !all_digits(d@) || digits_value(d@) > u64::MAX,
        },
{
    let mut val: u64 = 0;
    let mut i: usize = 0;
    while i < d.len()
        invariant
            i <= d@.len(),
            all_digits(d@.take(i as int)),
            val == digits_value(d@.take(i as int)),
        decreases d@.len() - i,
    {
        let b = d[i];
        if b < ZERO_BYTE || b > NINE_BYTE {
            return None;
        }
        assert(d@.take(i + 1).drop_last() =~= d@.take(i as int));
        match val.checked_mul(10) {
            None => {
                proof {
                    lemma_digits_prefix(d@, i + 1);
                }
                return None;
            },
            Some(m) => match m.checked_add((b - ZERO_BYTE) as u64) {
                None => {
                    proof {
                        lemma_digits_prefix(d@, i + 1);
                    }
                    return None;
                },
                Some(v) => {
                    val = v;
                },
            },
        }
        i = i + 1;
        assert(all_digits(d@.take(i as int))) by {
            assert forall|j: int| 0 <= j < i implies is_digit(#[trigger] d@.take(i as int)[j]) by {
                if j < i - 1 {
                    assert(d@.take(i as int)[j] == d@.take(i - 1)[j]);
                }
            }
        }
    }
    assert(d@.take(i as int) =~= d@);
    Some(val)
}

/// The text without a leading `+`.
fn strip_plus(t: &[u8]) -> (res: &[u8])
    ensures
        res@ == unsigned_digits(t@),
{
    if t.len() > 0 && t[0] == PLUS_SIGN {
        vstd::slice::slice_subrange(t, 1, t.len())
    } else {
        t
    }
}

/// Reads a `usize` as `usize::from_str` does.
fn parse_usize(t: &[u8]) -> (res: Option<usize>)
    ensures
        match usize_text(t@) {
            Some(n) => res == Some(n as usize),
            None => res is None,
        },
{
    let d = strip_plus(t);
    if d.len() == 0 {
        return None;
    }
    match digits_to_u64(d) {
        Some(v) => if v <= usize::MAX as u64 {
            Some(v as usize)
        } else {
            None
        },
        None => None,
    }
}

/// Reads an `i64` as `i64::from_str` does.
fn parse_i64(t: &[u8]) -> (res: Option<i64>)
    ensures
        match i64_text(t@) {
            Some(n) => res == Some(n as i64),
            None => res is None,
        },
{
    if t.len() > 0 && t[0] == MINUS_SIGN {
        let d = vstd::slice::slice_subrange(t, 1, t.len());
        assert(d@ =~= t@.drop_first());
        if d.len() == 0 {
            return None;
        }
        match digits_to_u64(d) {
            Some(v) => if v == 0x8000_0000_0000_0000u64 {
                Some(i64::MIN)
            } else if v < 0x8000_0000_0000_0000u64 {
                Some(-(v as i64))
            } else {
                None
            },
            None => None,
        }
    } else {
        let d = strip_plus(t);
        if d.len() == 0 {
            return None;
        }
        match digits_to_u64(d) {
            Some(v) => if v <= i64::MAX as u64 {
                Some(v as i64)
            } else {
                None
            },
            None => None,
        }
    }
}

/// The number text, unless it has a leading zero.
fn parse_and_check_for_leading_zeros(bytes: &[u8]) -> (res: Option<&[u8]>)
    ensures
        res == if leading_zero(bytes@) { None } else { Some(bytes) },
{
    if bytes.len() > 1 && bytes[0] == ZERO_BYTE {
        None
    } else {
        Some(bytes)
    }
}

// ---------------------------------------------------------------------------
// The decoder.
// ---------------------------------------------------------------------------

struct Cursor<'data> {
    data: &'data [u8],
    pos: usize,
}

impl<'data> Cursor<'data> {
    fn new(data: &'data [u8]) -> (res: Self)
        ensures
            res.data == data,
            res.pos == 0,
    {
        Self { data, pos: 0 }
    }

    fn peek(&self) -> (res: Option<u8>)
        ensures
            res == if self.pos < self.data@.len() {
                Some(self.data@[self.pos as int])
            } else {
                None::<u8>
            },
    {
        if self.pos < self.data.len() {
            Some(self.data[self.pos])
        } else {
            None
        }
    }

    fn next(&mut self) -> (res: Option<u8>)
        ensures
            final(self).data == old(self).data,
            res == if old(self).pos < old(self).data@.len() {
                Some(old(self).data@[old(self).pos as int])
            } else {
                None::<u8>
            },
            final(self).pos == if old(self).pos < old(self).data@.len() {
                old(self).pos + 1
            } else {
                old(self).pos as int
            },
    {
        if self.pos < self.data.len() {
            let b = self.data[self.pos];
            self.pos = self.pos + 1;
            Some(b)
        } else {
            None
        }
    }

    fn position(&self) -> (res: usize)
        ensures
            res == self.pos,
    {
        self.pos
    }

    fn slice(&self, start: usize, end: usize) -> (res: &'data [u8])
        requires
            start <= end <= self.data@.len(),
        ensures
            res@ == self.data@.subrange(start as int, end as int),
    {
        vstd::slice::slice_subrange(self.data, start, end)
    }
}

/// Decodes the object that `bytes` starts with; what follows it is ignored.
pub fn decode_object(bytes: &[u8]) -> (res: Object)
    requires
        decodable(bytes@),
    ensures
        res@ == decoded(bytes@),
{
    let mut cursor = Cursor::new(bytes);
    decode(&mut cursor)
}

// The functions below decode input that holds an object that the decoder
// accepts at the cursor; their `requires` leaves out all other input.

/// Decodes the object at the cursor.
fn decode(cursor: &mut Cursor) -> (res: Object)
    requires
        parse_object(old(cursor).data@, old(cursor).pos as int) is Some,
    ensures
        final(cursor).data == old(cursor).data,
        parse_object(old(cursor).data@, old(cursor).pos as int) matches Some((n, end)) && res@ == n
            && final(cursor).pos == end,
{
    let b = cursor.peek().unwrap();
    if b == DICTIONARY_START {
        decode_dictionary(cursor)
    } else if b == LIST_START {
        decode_list(cursor)
    } else if b == NUMBER_START {
        decode_number(cursor)
    } else {
        decode_byte_array(cursor)
    }
}

/// Decodes the dictionary at the cursor.
fn decode_dictionary(cursor: &mut Cursor) -> (res: Object)
    requires
        old(cursor).pos < old(cursor).data@.len(),
        old(cursor).data@[old(cursor).pos as int] == DICTIONARY_START,
        parse_object(old(cursor).data@, old(cursor).pos as int) is Some,
    ensures
        final(cursor).data == old(cursor).data,
        parse_object(old(cursor).data@, old(cursor).pos as int) matches Some((n, end)) && res@ == n
            && final(cursor).pos == end,
{
    try_decode_dictionary(cursor).unwrap()
}

/// Decodes the list at the cursor.
fn decode_list(cursor: &mut Cursor) -> (res: Object)
    requires
        old(cursor).pos < old(cursor).data@.len(),
        old(cursor).data@[old(cursor).pos as int] == LIST_START,
        parse_object(old(cursor).data@, old(cursor).pos as int) is Some,
    ensures
        final(cursor).data == old(cursor).data,
        parse_object(old(cursor).data@, old(cursor).pos as int) matches Some((n, end)) && res@ == n
            && final(cursor).pos == end,
{
    try_decode_list(cursor).unwrap()
}

/// Decodes the number at the cursor.
fn decode_number(cursor: &mut Cursor) -> (res: Object)
    requires
        old(cursor).pos < old(cursor).data@.len(),
        old(cursor).data@[old(cursor).pos as int] == NUMBER_START,
        parse_object(old(cursor).data@, old(cursor).pos as int) is Some,
    ensures
        final(cursor).data == old(cursor).data,
        parse_object(old(cursor).data@, old(cursor).pos as int) matches Some((n, end)) && res@ == n
            && final(cursor).pos == end,
{
    let start = cursor.position();
    cursor.next();
    let bytes = read_until(cursor, NUMBER_END);
    let num_str = parse_and_check_for_leading_zeros(bytes).unwrap();
    let num = parse_i64(num_str).unwrap();
    let end = cursor.position();
    Object::new(ObjectType::Number(num), vstd::slice::slice_to_vec(cursor.slice(start, end)))
}

/// Decodes the byte string at the cursor.
#[verifier::loop_isolation(false)]
fn decode_byte_array(cursor: &mut Cursor) -> (res: Object)
    requires
        parse_byte_string(old(cursor).data@, old(cursor).pos as int) is Some,
    ensures
        final(cursor).data == old(cursor).data,
        parse_byte_string(old(cursor).data@, old(cursor).pos as int) matches Some((b, end)) && res@ == (Node {
            value: Value::ByteArray(b),
            bytes: old(cursor).data@.subrange(old(cursor).pos as int, end),
        }) && final(cursor).pos == end,
        old(cursor).pos < final(cursor).pos <= final(cursor).data@.len(),
{
    let ghost d = cursor.data;
    let ghost s = d@;
    let start = cursor.position();
    let len_bytes = read_until(cursor, BYTE_ARRAY_DIVIDER);
    let length_str = parse_and_check_for_leading_zeros(len_bytes).unwrap();
    let len = parse_usize(length_str).unwrap();
    let ghost body = cursor.pos;
    let mut bytes: Vec<u8> = Vec::new();
    let mut i: usize = 0;
    while i < len
        invariant
            cursor.data == d,
            s == d@,
            d == old(cursor).data,
            start == old(cursor).pos,
            cursor.pos == body + i,
            body + len <= s.len(),
            i <= len,
            bytes@ == s.subrange(body as int, cursor.pos as int),
        decreases len - i,
    {
        bytes.push(cursor.next().unwrap());
        i = i + 1;
        assert(bytes@ =~= s.subrange(body as int, cursor.pos as int));
    }
    let end = cursor.position();
    Object::new(ObjectType::ByteArray(bytes), vstd::slice::slice_to_vec(cursor.slice(start, end)))
}

/// Moves past the first `terminator` at or after the cursor, and returns the
/// bytes before it.
fn read_until<'data>(cursor: &mut Cursor<'data>, terminator: u8) -> (res: &'data [u8])
    requires
        find_byte(old(cursor).data@, old(cursor).pos as int, terminator) is Some,
    ensures
        final(cursor).data == old(cursor).data,
        old(cursor).pos < final(cursor).pos <= final(cursor).data@.len(),
        find_byte(old(cursor).data@, old(cursor).pos as int, terminator) matches Some(t) && res@
            == old(cursor).data@.subrange(old(cursor).pos as int, t) && final(cursor).pos == t + 1,
{
    let ghost d = cursor.data;
    let ghost s = d@;
    let start = cursor.position();
    loop
        invariant
            cursor.data == d,
            s == d@,
            d == old(cursor).data,
            start == old(cursor).pos,
            start <= cursor.pos <= s.len(),
            find_byte(s, start as int, terminator) == find_byte(s, cursor.pos as int, terminator),
            find_byte(s, cursor.pos as int, terminator) is Some,
        ensures
            cursor.pos < s.len(),
            s[cursor.pos as int] == terminator,
        decreases s.len() - cursor.pos,
    {
        let b = cursor.peek().unwrap();
        if b == terminator {
            break;
        }
        cursor.next();
    }
    let end = cursor.position();
    cursor.next();
    cursor.slice(start, end)
}

// The functions below read input that may not hold an object that the
// decoder accepts, and give `None` where it does not.

/// Decodes the object that `bytes` starts with, or `None` where it is not
/// one that the decoder accepts.
pub fn try_decode_object(bytes: &[u8]) -> (res: Option<Object>)
    ensures
        match parse_object(bytes@, 0) {
            Some((n, _)) => res matches Some(o) && o@ == n,
            None => res is None,
        },
{
    let mut cursor = Cursor::new(bytes);
    try_decode(&mut cursor)
}

fn try_decode(cursor: &mut Cursor) -> (res: Option<Object>)
    requires
        old(cursor).pos <= old(cursor).data@.len(),
    ensures
        final(cursor).data == old(cursor).data,
        final(cursor).pos <= final(cursor).data@.len(),
        res is Some ==> old(cursor).pos < final(cursor).pos,
        match parse_object(old(cursor).data@, old(cursor).pos as int) {
            Some((n, end)) => res matches Some(o) && o@ == n && final(cursor).pos == end,
            None => res is None,
        },
    decreases old(cursor).data@.len() - old(cursor).pos, 1int,
{
    match cursor.peek() {
        Some(b) => if b == DICTIONARY_START {
            try_decode_dictionary(cursor)
        } else if b == LIST_START {
            try_decode_list(cursor)
        } else if b == NUMBER_START {
            try_decode_number(cursor)
        } else if ZERO_BYTE <= b && b <= NINE_BYTE {
            try_decode_byte_array(cursor)
        } else {
            None
        },
        None => None,
    }
}


fn try_decode_dictionary(cursor: &mut Cursor) -> (res: Option<Object>)
    requires
        old(cursor).pos < old(cursor).data@.len(),
        old(cursor).data@[old(cursor).pos as int] == DICTIONARY_START,
    ensures
        final(cursor).data == old(cursor).data,
        final(cursor).pos <= final(cursor).data@.len(),
        res is Some ==> old(cursor).pos < final(cursor).pos,
        match parse_object(old(cursor).data@, old(cursor).pos as int) {
            Some((n, end)) => res matches Some(o) && o@ == n && final(cursor).pos == end,
            None => res is None,
        },
    decreases old(cursor).data@.len() - old(cursor).pos, 0int,
{
    let ghost d = cursor.data;
    let ghost s = d@;
    let start = cursor.position();
    cursor.next();
    let mut dict = Dictionary::new();
    loop
        invariant_except_break
            parse_dict_entries(s, start + 1, Map::empty()) == parse_dict_entries(
                s,
                cursor.pos as int,
                dict@,
            ),
        invariant
            cursor.data == d,
            s == d@,
            d == old(cursor).data,
            start == old(cursor).pos,
            start < cursor.pos <= s.len(),
            s[start as int] == DICTIONARY_START,
        ensures
            cursor.data == d,
            s == d@,
            d == old(cursor).data,
            start == old(cursor).pos,
            start < cursor.pos <= s.len(),
            parse_dict_entries(s, start + 1, Map::empty()) == Some((dict@, cursor.pos as int)),
        decreases s.len() - cursor.pos,
    {
        match cursor.peek() {
            None => break,
            Some(b) => {
                if b == DICTIONARY_END {
                    cursor.next();
                    break;
                }
                let key = match try_decode_key(cursor) {
                    Some(k) => k,
                    None => return None,
                };
                let value = match try_decode(cursor) {
                    Some(v) => v,
                    None => return None,
                };
                dict.insert(key, value);
            },
        }
    }
    let end = cursor.position();
    Some(Object::new(ObjectType::Dictionary(dict), vstd::slice::slice_to_vec(cursor.slice(start, end))))
}

fn try_decode_list(cursor: &mut Cursor) -> (res: Option<Object>)
    requires
        old(cursor).pos < old(cursor).data@.len(),
        old(cursor).data@[old(cursor).pos as int] == LIST_START,
    ensures
        final(cursor).data == old(cursor).data,
        final(cursor).pos <= final(cursor).data@.len(),
        res is Some ==> old(cursor).pos < final(cursor).pos,
        match parse_object(old(cursor).data@, old(cursor).pos as int) {
            Some((n, end)) => res matches Some(o) && o@ == n && final(cursor).pos == end,
            None => res is None,
        },
    decreases old(cursor).data@.len() - old(cursor).pos, 0int,
{
    let ghost d = cursor.data;
    let ghost s = d@;
    let start = cursor.position();
    cursor.next();
    let mut list: Vec<Object> = Vec::new();
    loop
        invariant_except_break
            parse_list_items(s, start + 1, Seq::empty()) == parse_list_items(
                s,
                cursor.pos as int,
                nodes_of(list@),
            ),
        invariant
            cursor.data == d,
            s == d@,
            d == old(cursor).data,
            start == old(cursor).pos,
            start < cursor.pos <= s.len(),
            s[start as int] == LIST_START,
        ensures
            cursor.data == d,
            s == d@,
            d == old(cursor).data,
            start == old(cursor).pos,
            start < cursor.pos <= s.len(),
            parse_list_items(s, start + 1, Seq::empty()) == Some((nodes_of(list@), cursor.pos as int)),
        decreases s.len() - cursor.pos,
    {
        match cursor.peek() {
            None => break,
            Some(b) => {
                if b == LIST_END {
                    cursor.next();
                    break;
                }
                match try_decode(cursor) {
                    Some(o) => {
                        assert(list@.push(o).drop_last() =~= list@);
                        list.push(o);
                    },
                    None => return None,
                }
            },
        }
    }
    let end = cursor.position();
    Some(Object::new(ObjectType::List(list), vstd::slice::slice_to_vec(cursor.slice(start, end))))
}

fn try_decode_number(cursor: &mut Cursor) -> (res: Option<Object>)
    requires
        old(cursor).pos < old(cursor).data@.len(),
        old(cursor).data@[old(cursor).pos as int] == NUMBER_START,
    ensures
        final(cursor).data == old(cursor).data,
        final(cursor).pos <= final(cursor).data@.len(),
        res is Some ==> old(cursor).pos < final(cursor).pos,
        match parse_object(old(cursor).data@, old(cursor).pos as int) {
            Some((n, end)) => res matches Some(o) && o@ == n && final(cursor).pos == end,
            None => res is None,
        },
{
    let start = cursor.position();
    cursor.next();
    let bytes = try_read_until(cursor, NUMBER_END)?;
    if bytes.len() == 0 {
        return None;
    }
    let num_str = parse_and_check_for_leading_zeros(bytes)?;
    let num = parse_i64(num_str)?;
    let end = cursor.position();
    Some(Object::new(ObjectType::Number(num), vstd::slice::slice_to_vec(cursor.slice(start, end))))
}

#[verifier::loop_isolation(false)]
fn try_decode_byte_array(cursor: &mut Cursor) -> (res: Option<Object>)
    requires
        old(cursor).pos <= old(cursor).data@.len(),
    ensures
        final(cursor).data == old(cursor).data,
        final(cursor).pos <= final(cursor).data@.len(),
        res is Some ==> old(cursor).pos < final(cursor).pos,
        match parse_byte_string(old(cursor).data@, old(cursor).pos as int) {
            Some((b, end)) => res matches Some(o) && o@ == (Node {
                value: Value::ByteArray(b),
                bytes: old(cursor).data@.subrange(old(cursor).pos as int, end),
            }) && final(cursor).pos == end,
            None => res is None,
        },
{
    let ghost d = cursor.data;
    let ghost s = d@;
    let start = cursor.position();
    let len_bytes = try_read_until(cursor, BYTE_ARRAY_DIVIDER)?;
    let length_str = parse_and_check_for_leading_zeros(len_bytes)?;
    let len = parse_usize(length_str)?;
    let ghost body = cursor.pos;
    let mut bytes: Vec<u8> = Vec::new();
    let mut i: usize = 0;
    while i < len
        invariant
            cursor.data == d,
            s == d@,
            d == old(cursor).data,
            start == old(cursor).pos,
            cursor.pos == body + i,
            body <= cursor.pos <= s.len(),
            i <= len,
            bytes@ == s.subrange(body as int, cursor.pos as int),
        decreases len - i,
    {
        match cursor.next() {
            Some(b) => {
                bytes.push(b);
            },
            None => return None,
        }
        i = i + 1;
        assert(bytes@ =~= s.subrange(body as int, cursor.pos as int));
    }
    let end = cursor.position();
    Some(Object::new(ObjectType::ByteArray(bytes), vstd::slice::slice_to_vec(cursor.slice(start, end))))
}

fn try_decode_key(cursor: &mut Cursor) -> (res: Option<Vec<u8>>)
    requires
        old(cursor).pos <= old(cursor).data@.len(),
    ensures
        final(cursor).data == old(cursor).data,
        final(cursor).pos <= final(cursor).data@.len(),
        res is Some ==> old(cursor).pos < final(cursor).pos,
        match parse_byte_string(old(cursor).data@, old(cursor).pos as int) {
            Some((b, end)) => res matches Some(k) && k@ == b && final(cursor).pos == end,
            None => res is None,
        },
{
    let object = try_decode_byte_array(cursor)?;
    match object.object_type() {
        ObjectType::ByteArray(b) => Some(vstd::slice::slice_to_vec(b.as_slice())),
        _ => None,
    }
}

/// Moves past the first `terminator` at or after the cursor, and returns the
/// bytes before it.
fn try_read_until<'data>(cursor: &mut Cursor<'data>, terminator: u8) -> (res: Option<&'data [u8]>)
    requires
        old(cursor).pos <= old(cursor).data@.len(),
    ensures
        final(cursor).data == old(cursor).data,
        final(cursor).pos <= final(cursor).data@.len(),
        res is Some ==> old(cursor).pos < final(cursor).pos,
        match find_byte(old(cursor).data@, old(cursor).pos as int, terminator) {
            Some(t) => res matches Some(r) && r@ == old(cursor).data@.subrange(
                old(cursor).pos as int,
                t,
            ) && final(cursor).pos == t + 1,
            None => res is None,
        },
{
    let ghost d = cursor.data;
    let ghost s = d@;
    let start = cursor.position();
    loop
        invariant
            cursor.data == d,
            s == d@,
            d == old(cursor).data,
            start == old(cursor).pos,
            start <= cursor.pos <= s.len(),
            find_byte(s, start as int, terminator) == find_byte(s, cursor.pos as int, terminator),
        ensures
            cursor.pos < s.len(),
            s[cursor.pos as int] == terminator,
        decreases s.len() - cursor.pos,
    {
        match cursor.peek() {
            None => return None,
            Some(b) => {
                if b == terminator {
                    break;
                }
                cursor.next();
            },
        }
    }
    let end = cursor.position();
    cursor.next();
    Some(cursor.slice(start, end))
}

} // verus!
