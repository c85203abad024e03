//! The boot keyboard report: one byte of modifier bits, one reserved byte
//! and six key slots.

use vstd::prelude::*;

verus! {

/// Number of key slots in a report.
pub const REPORT_KEYS: usize = 6;

/// Number of bytes of a report.
pub const REPORT_BYTES: usize = 8;

/// The code of the first modifier, left control.
pub const FIRST_MODIFIER: u8 = 0xE0;

/// The code of the last modifier, right GUI.
pub const LAST_MODIFIER: u8 = 0xE7;

/// Whether `code` is one of the eight modifier codes.
pub open spec fn is_modifier(code: u8) -> bool {
    FIRST_MODIFIER <= code <= LAST_MODIFIER
}

/// Whether `code` takes a key slot: it is no modifier and not code 0, which
/// stands for no key.
pub open spec fn takes_slot(code: u8) -> bool {
    code != 0 && !is_modifier(code)
}

/// The bit of a modifier code in the modifier byte; 0 for any other code.
pub open spec fn modifier_bit(code: u8) -> u8 {
    if is_modifier(code) {
        1u8 << ((code - FIRST_MODIFIER) as u8)
    } else {
        0
    }
}

/// The modifier byte for the held codes `live`: the union of their bits.
pub open spec fn modifier_mask(live: Seq<u8>) -> u8
    decreases live.len(),
{
    if live.len() == 0 {
        0
    } else {
        modifier_mask(live.drop_last()) | modifier_bit(live.last())
    }
}

/// The codes of `live` that take a slot, each once, in the order in which
/// they first occur.
pub open spec fn distinct_keys(live: Seq<u8>) -> Seq<u8>
    decreases live.len(),
{
    if live.len() == 0 {
        Seq::empty()
    } else {
        let before = distinct_keys(live.drop_last());
        if takes_slot(live.last()) && !before.contains(live.last()) {
            before.push(live.last())
        } else {
            before
        }
    }
}

/// The first `REPORT_KEYS` entries of `keys`.
pub open spec fn capped(keys: Seq<u8>) -> Seq<u8> {
    if keys.len() > REPORT_KEYS {
        keys.take(REPORT_KEYS as int)
    } else {
        keys
    }
}

/// The codes that the report carries in its key slots.
pub open spec fn report_keys(live: Seq<u8>) -> Seq<u8> {
    capped(distinct_keys(live))
}

/// The bytes of the report for the held codes `live`.
pub open spec fn report_bytes(live: Seq<u8>) -> Seq<u8> {
    let keys = report_keys(live);
    Seq::new(
        REPORT_BYTES as nat,
        |i: int|
            if i == 0 {
                modifier_mask(live)
            } else if 2 <= i < 2 + keys.len() {
                keys[i - 2]
            } else {
                0u8
            },
    )
}

/// The modifiers whose bit is set in `mask`, by ascending code, as far as
/// they are among the first `upto` modifiers.
pub open spec fn set_modifiers(mask: u8, upto: int) -> Seq<u8>
    decreases upto,
{
    if upto <= 0 {
        Seq::empty()
    } else {
        let before = set_modifiers(mask, upto - 1);
        let code = (FIRST_MODIFIER + upto - 1) as u8;
        if (mask & modifier_bit(code)) != 0 {
            before.push(code)
        } else {
            before
        }
    }
}

/// The codes in the first `upto` key slots of a report that are not 0, in
/// the order of the slots.
pub open spec fn filled_slots(bytes: Seq<u8>, upto: int) -> Seq<u8>
    decreases upto,
{
    if upto <= 0 {
        Seq::empty()
    } else {
        let before = filled_slots(bytes, upto - 1);
        if bytes[upto + 1] != 0 {
            before.push(bytes[upto + 1])
        } else {
            before
        }
    }
}

/// The codes that a report of the bytes `bytes` shows: the modifiers whose
/// bit is set, by ascending code, and after them the codes in the key slots
/// that are not 0, in the order of the slots.
pub open spec fn shown_codes(bytes: Seq<u8>) -> Seq<u8> {
    set_modifiers(bytes[0], 8) + filled_slots(bytes, REPORT_KEYS as int)
}

/// Tells modifier codes from the others.
pub fn modifier(code: u8) -> (r: bool)
    ensures
        r == is_modifier(code),
{
    FIRST_MODIFIER <= code && code <= LAST_MODIFIER
}

/// The bit of `code` in the modifier byte; 0 where `code` is no modifier.
pub fn bit_of(code: u8) -> (bit: u8)
    ensures
        bit == modifier_bit(code),
{
    if modifier(code) {
        let shift: u8 = code - FIRST_MODIFIER;
        assert(shift < 8);
        1u8 << shift
    } else {
        0
    }
}

/// One report for the host.
#[derive(Clone, Copy, Debug, PartialEq, Eq)]
pub struct OutputReport {
    bytes: [u8; 8],
}

impl View for OutputReport {
    type V = Seq<u8>;

    /// The eight bytes of the report.
    closed spec fn view(&self) -> Seq<u8> {
        self.bytes@
    }
}

fn slot(keys: &Vec<u8>, index: usize) -> (code: u8)
    ensures
        code == if index < keys@.len() {
            keys@[index as int]
        } else {
            0u8
        },
{
    if index < keys.len() {
        keys[index]
    } else {
        0
    }
}

impl OutputReport {
    /// The report for the held codes `live`: the modifier bits of all of
    /// them, and in the key slots the first six distinct codes that take a
    /// slot. Further codes are left out.
    pub fn from_codes(live: &Vec<u8>) -> (report: OutputReport)
        ensures
            report@ == report_bytes(live@),
    {
        let mut mask: u8 = 0;
        let mut keys: Vec<u8> = Vec::new();
        let mut i: usize = 0;
        while i < live.len()
            invariant
                i <= live@.len(),
                mask == modifier_mask(live@.take(i as int)),
                keys@ == report_keys(live@.take(i as int)),
            decreases live@.len() - i,
        {
            let code: u8 = live[i];
            proof {
                assert(live@.take(i as int + 1).drop_last() =~= live@.take(i as int));
                assert(live@.take(i as int + 1).last() == code);
            }
            mask = mask | bit_of(code);
            if code != 0 && !modifier(code) && keys.len() < REPORT_KEYS {
                if !holds(&keys, code) {
                    keys.push(code);
                }
            }
            i += 1;
        }
        assert(live@.take(live@.len() as int) =~= live@);
        let bytes: [u8; 8] = [
            mask,
            0,
            slot(&keys, 0),
            slot(&keys, 1),
            slot(&keys, 2),
            slot(&keys, 3),
            slot(&keys, 4),
            slot(&keys, 5),
        ];
        assert(bytes@ =~= report_bytes(live@));
        OutputReport { bytes }
    }

    /// The eight bytes of the report.
    pub fn as_bytes(&self) -> (bytes: [u8; 8])
        ensures
            bytes@ == self@,
    {
        self.bytes
    }

    /// The codes that the report shows: the modifiers whose bit is set, by
    /// ascending code, and after them the codes in the key slots that are
    /// not 0, in the order of the slots.
    pub fn codes(&self) -> (out: Vec<u8>)
        ensures
            out@ == shown_codes(self@),
    {
        let mut out: Vec<u8> = Vec::new();
        let mut bit: u8 = 0;
        while bit < 8
            invariant
                bit <= 8,
                out@ == set_modifiers(self@[0], bit as int),
            decreases 8 - bit,
        {
            let code: u8 = FIRST_MODIFIER + bit;
            if (self.bytes[0] & bit_of(code)) != 0 {
                out.push(code);
            }
            bit += 1;
        }
        let ghost modifiers = out@;
        let mut index: usize = 0;
        while index < REPORT_KEYS
            invariant
                index <= REPORT_KEYS,
                out@ == modifiers + filled_slots(self@, index as int),
            decreases REPORT_KEYS - index,
        {
            let code: u8 = self.bytes[index + 2];
            if code != 0 {
                out.push(code);
            }
            assert(out@ =~= modifiers + filled_slots(self@, index as int + 1));
            index += 1;
        }
        out
    }

    /// The modifier byte.
    pub fn modifiers(&self) -> (mask: u8)
        ensures
            self@.len() == REPORT_BYTES,
            mask == self@[0],
    {
        self.bytes[0]
    }

    /// The code in key slot `index`; 0 where the slot is empty.
    pub fn key(&self, index: usize) -> (code: u8)
        requires
            index < REPORT_KEYS,
        ensures
            code == self@[index + 2],
    {
        self.bytes[index + 2]
    }
}

fn holds(keys: &Vec<u8>, code: u8) -> (found: bool)
    ensures
        found == keys@.contains(code),
{
    let mut i: usize = 0;
    while i < keys.len()
        invariant
            i <= keys@.len(),
            forall|j: int| 0 <= j < i ==> keys@[j] != code,
        decreases keys@.len() - i,
    {
        if keys[i] == code {
            return true;
        }
        i += 1;
    }
    false
}

/// The key list holds a code exactly when the code is held and takes a
/// slot, and it holds no code twice.
pub proof fn lemma_distinct_keys(live: Seq<u8>)
    ensures
        distinct_keys(live).no_duplicates(),
        forall|code: u8| #[trigger]
            distinct_keys(live).contains(code) <==> live.contains(code) && takes_slot(code),
    decreases live.len(),
{
    if live.len() > 0 {
        let rest = live.drop_last();
        let last = live.last();
        let before = distinct_keys(rest);
        lemma_distinct_keys(rest);
        assert forall|code: u8| #[trigger]
            distinct_keys(live).contains(code) <==> live.contains(code) && takes_slot(
                code,
            ) by {
            if live.contains(code) {
                let i: int = choose|i: int| 0 <= i < live.len() && live[i] == code;
                if i < rest.len() {
                    assert(rest[i] == code);
                }
            }
            if rest.contains(code) {
                let i: int = choose|i: int| 0 <= i < rest.len() && rest[i] == code;
                assert(live[i] == code);
            }
            assert(live[live.len() - 1] == last);
            if takes_slot(last) && !before.contains(last) {
                assert(before.push(last)[before.len() as int] == last);
                if before.contains(code) {
                    let i: int = choose|i: int| 0 <= i < before.len() && before[i] == code;
                    assert(before.push(last)[i] == code);
                }
            }
        }
    }
}

/// The keys of an earlier part of the held codes come first in the key
/// list: a code that is held later never displaces one that is held
/// earlier.
pub proof fn lemma_earlier_keys_first(live: Seq<u8>, upto: int)
    requires
        0 <= upto <= live.len(),
    ensures
        distinct_keys(live.take(upto)).is_prefix_of(distinct_keys(live)),
    decreases live.len() - upto,
{
    if upto == live.len() {
        assert(live.take(upto) =~= live);
    } else {
        lemma_earlier_keys_first(live, upto + 1);
        assert(live.take(upto + 1).drop_last() =~= live.take(upto));
    }
}

/// The report carries the first six entries of the key list, or all of
/// them where there are fewer.
pub proof fn lemma_report_cap(live: Seq<u8>)
    ensures
        report_keys(live).len() == if distinct_keys(live).len() > REPORT_KEYS {
            REPORT_KEYS as nat
        } else {
            distinct_keys(live).len()
        },
        report_keys(live).is_prefix_of(distinct_keys(live)),
        report_bytes(live).len() == REPORT_BYTES,
        report_bytes(live)[0] == modifier_mask(live),
        report_bytes(live)[1] == 0,
        forall|i: int|
            0 <= i < REPORT_KEYS ==> #[trigger] report_bytes(live)[i + 2] == if i < report_keys(
                live,
            ).len() {
                report_keys(live)[i]
            } else {
                0u8
            },
{
}

proof fn lemma_single_bits(x: u8, y: u8, a: u8, b: u8)
    requires
        a < 8,
        b < 8,
    ensures
        ((x | y) & (1u8 << a)) != 0 <==> (x & (1u8 << a)) != 0 || (y & (1u8 << a)) != 0,
        ((1u8 << b) & (1u8 << a)) != 0 <==> a == b,
        (0u8 & (1u8 << a)) == 0,
{
    assert(((x | y) & (1u8 << a)) != 0 <==> (x & (1u8 << a)) != 0 || (y & (1u8 << a)) != 0)
        by (bit_vector);
    assert(((1u8 << b) & (1u8 << a)) != 0 <==> a == b) by (bit_vector)
        requires
            a < 8,
            b < 8,
    ;
    assert((0u8 & (1u8 << a)) == 0) by (bit_vector);
}

/// The bit of a modifier is set in the modifier byte exactly when the
/// modifier is among the held codes.
pub proof fn lemma_modifier_bit_set(live: Seq<u8>, code: u8)
    requires
        is_modifier(code),
    ensures
        (modifier_mask(live) & modifier_bit(code)) != 0 <==> live.contains(code),
    decreases live.len(),
{
    let a: u8 = (code - FIRST_MODIFIER) as u8;
    if live.len() == 0 {
        lemma_single_bits(0, 0, a, a);
    } else {
        let rest = live.drop_last();
        let last = live.last();
        lemma_modifier_bit_set(rest, code);
        assert(live[live.len() - 1] == last);
        if live.contains(code) {
            let i: int = choose|i: int| 0 <= i < live.len() && live[i] == code;
            if i < rest.len() {
                assert(rest[i] == code);
            }
        }
        if rest.contains(code) {
            let i: int = choose|i: int| 0 <= i < rest.len() && rest[i] == code;
            assert(live[i] == code);
        }
        if is_modifier(last) {
            let b: u8 = (last - FIRST_MODIFIER) as u8;
            lemma_single_bits(modifier_mask(rest), modifier_bit(last), a, b);
        } else {
            lemma_single_bits(modifier_mask(rest), 0, a, a);
        }
    }
}

/// What the report shows of a held code: the bit of a modifier is set
/// exactly when the modifier is held, and while no more than six distinct
/// keys are held, a key is in a slot exactly when it is held.
pub proof fn lemma_report_shows_held_codes(live: Seq<u8>, code: u8)
    ensures
        is_modifier(code) ==> ((report_bytes(live)[0] & modifier_bit(code)) != 0
            <==> live.contains(code)),
        takes_slot(code) && distinct_keys(live).len() <= REPORT_KEYS ==> ((exists|i: int|
            2 <= i < REPORT_BYTES && #[trigger] report_bytes(live)[i] == code) <==> live.contains(
            code,
        )),
{
    if is_modifier(code) {
        lemma_modifier_bit_set(live, code);
    }
    if takes_slot(code) && distinct_keys(live).len() <= REPORT_KEYS {
        lemma_distinct_keys(live);
        let keys = distinct_keys(live);
        assert(report_keys(live) == keys);
        assert(distinct_keys(live).contains(code) <==> live.contains(code));
        if keys.contains(code) {
            let i: int = choose|i: int| 0 <= i < keys.len() && keys[i] == code;
            assert(2 <= i + 2 < REPORT_BYTES && report_bytes(live)[i + 2] == code);
        }
        if exists|i: int| 2 <= i < REPORT_BYTES && #[trigger] report_bytes(live)[i] == code {
            let i: int = choose|i: int|
                2 <= i < REPORT_BYTES && #[trigger] report_bytes(live)[i] == code;
            assert(i < 2 + keys.len());
            assert(keys[i - 2] == code);
            assert(keys.contains(code));
        }
    }
}

/// With no code held the report is eight zero bytes.
pub proof fn lemma_idle_report_is_empty()
    ensures
        report_bytes(Seq::<u8>::empty()) == Seq::new(REPORT_BYTES as nat, |i: int| 0u8),
{
    assert(report_bytes(Seq::<u8>::empty()) =~= Seq::new(REPORT_BYTES as nat, |i: int| 0u8));
}

proof fn lemma_filled_slots(bytes: Seq<u8>, keys: Seq<u8>, upto: int)
    requires
        0 <= upto <= REPORT_KEYS,
        keys.len() <= REPORT_KEYS,
        forall|j: int| 2 <= j < 2 + keys.len() ==> #[trigger] bytes[j] == keys[j - 2],
        forall|j: int| 0 <= j < keys.len() ==> #[trigger] keys[j] != 0,
        forall|j: int| 2 + keys.len() <= j < REPORT_BYTES ==> #[trigger] bytes[j] == 0,
    ensures
        filled_slots(bytes, upto) == if upto <= keys.len() {
            keys.take(upto)
        } else {
            keys
        },
    decreases upto,
{
    if upto > 0 {
        lemma_filled_slots(bytes, keys, upto - 1);
        if upto <= keys.len() {
            assert(bytes[upto + 1] == keys[upto - 1]);
            assert(keys.take(upto - 1).push(keys[upto - 1]) =~= keys.take(upto));
        } else {
            assert(bytes[upto + 1] == 0);
            assert(keys.take(keys.len() as int) =~= keys);
        }
    } else {
        assert(keys.take(0) =~= Seq::<u8>::empty());
    }
}

proof fn lemma_set_modifiers(mask: u8, upto: int, code: u8)
    requires
        0 <= upto <= 8,
    ensures
        set_modifiers(mask, upto).contains(code) <==> FIRST_MODIFIER <= code < FIRST_MODIFIER
            + upto && (mask & modifier_bit(code)) != 0,
    decreases upto,
{
    if upto > 0 {
        lemma_set_modifiers(mask, upto - 1, code);
        let before = set_modifiers(mask, upto - 1);
        let last = (FIRST_MODIFIER + upto - 1) as u8;
        if (mask & modifier_bit(last)) != 0 {
            assert(before.push(last)[before.len() as int] == last);
            if before.contains(code) {
                let i: int = choose|i: int| 0 <= i < before.len() && before[i] == code;
                assert(before.push(last)[i] == code);
            }
        }
    }
}

proof fn lemma_modifiers_take_no_slot(codes: Seq<u8>)
    requires
        forall|i: int| 0 <= i < codes.len() ==> !takes_slot(#[trigger] codes[i]),
    ensures
        distinct_keys(codes) == Seq::<u8>::empty(),
    decreases codes.len(),
{
    if codes.len() > 0 {
        assert(!takes_slot(codes[codes.len() - 1]));
        assert forall|i: int| 0 <= i < codes.drop_last().len() implies !takes_slot(
            #[trigger] codes.drop_last()[i],
        ) by {
            assert(codes.drop_last()[i] == codes[i]);
        }
        lemma_modifiers_take_no_slot(codes.drop_last());
    }
}

proof fn lemma_keys_after_modifiers(modifiers: Seq<u8>, keys: Seq<u8>, upto: int)
    requires
        forall|i: int| 0 <= i < modifiers.len() ==> !takes_slot(#[trigger] modifiers[i]),
        forall|i: int| 0 <= i < keys.len() ==> takes_slot(#[trigger] keys[i]),
        keys.no_duplicates(),
        0 <= upto <= keys.len(),
    ensures
        distinct_keys(modifiers + keys.take(upto)) == keys.take(upto),
    decreases upto,
{
    if upto == 0 {
        assert(modifiers + keys.take(0) =~= modifiers);
        assert(keys.take(0) =~= Seq::<u8>::empty());
        lemma_modifiers_take_no_slot(modifiers);
    } else {
        lemma_keys_after_modifiers(modifiers, keys, upto - 1);
        let whole = modifiers + keys.take(upto);
        assert(whole.drop_last() =~= modifiers + keys.take(upto - 1));
        assert(whole.last() == keys[upto - 1]);
        assert(takes_slot(keys[upto - 1]));
        let earlier = keys.take(upto - 1);
        if earlier.contains(keys[upto - 1]) {
            let i: int = choose|i: int| 0 <= i < earlier.len() && earlier[i] == keys[upto - 1];
            assert(keys[i] == keys[upto - 1]);
        }
        assert(keys.take(upto - 1).push(keys[upto - 1]) =~= keys.take(upto));
    }
}

proof fn lemma_same_bits(x: u8, y: u8)
    by (bit_vector)
    requires
        ((x & 1) != 0) == ((y & 1) != 0),
        ((x & 2) != 0) == ((y & 2) != 0),
        ((x & 4) != 0) == ((y & 4) != 0),
        ((x & 8) != 0) == ((y & 8) != 0),
        ((x & 16) != 0) == ((y & 16) != 0),
        ((x & 32) != 0) == ((y & 32) != 0),
        ((x & 64) != 0) == ((y & 64) != 0),
        ((x & 128) != 0) == ((y & 128) != 0),
    ensures
        x == y,
{
}

proof fn lemma_modifier_bits()
    ensures
        modifier_bit(0xE0) == 1,
        modifier_bit(0xE1) == 2,
        modifier_bit(0xE2) == 4,
        modifier_bit(0xE3) == 8,
        modifier_bit(0xE4) == 16,
        modifier_bit(0xE5) == 32,
        modifier_bit(0xE6) == 64,
        modifier_bit(0xE7) == 128,
{
    assert((1u8 << 0u8) == 1u8) by (bit_vector);
    assert((1u8 << 1u8) == 2u8) by (bit_vector);
    assert((1u8 << 2u8) == 4u8) by (bit_vector);
    assert((1u8 << 3u8) == 8u8) by (bit_vector);
    assert((1u8 << 4u8) == 16u8) by (bit_vector);
    assert((1u8 << 5u8) == 32u8) by (bit_vector);
    assert((1u8 << 6u8) == 64u8) by (bit_vector);
    assert((1u8 << 7u8) == 128u8) by (bit_vector);
}

proof fn lemma_shown_modifier(mask: u8, keys: Seq<u8>, code: u8)
    requires
        is_modifier(code),
        forall|i: int| 0 <= i < keys.len() ==> takes_slot(#[trigger] keys[i]),
    ensures
        (modifier_mask(set_modifiers(mask, 8) + keys) & modifier_bit(code)) != 0 <==> (mask
            & modifier_bit(code)) != 0,
{
    let modifiers = set_modifiers(mask, 8);
    let shown = modifiers + keys;
    lemma_modifier_bit_set(shown, code);
    lemma_set_modifiers(mask, 8, code);
    if modifiers.contains(code) {
        let i: int = choose|i: int| 0 <= i < modifiers.len() && modifiers[i] == code;
        assert(shown[i] == code);
    }
    if shown.contains(code) {
        let i: int = choose|i: int| 0 <= i < shown.len() && shown[i] == code;
        if i < modifiers.len() {
            assert(modifiers[i] == code);
        } else {
            assert(keys[i - modifiers.len()] == code);
        }
    }
}

/// A report says all of itself through the codes that it shows: the report
/// for those codes is the same report, byte for byte.
pub proof fn lemma_shown_codes_rebuild_report(live: Seq<u8>)
    ensures
        report_bytes(shown_codes(report_bytes(live))) == report_bytes(live),
{
    let bytes = report_bytes(live);
    let keys = report_keys(live);
    let mask = modifier_mask(live);
    let modifiers = set_modifiers(mask, 8);
    lemma_distinct_keys(live);
    assert forall|i: int| 0 <= i < keys.len() implies takes_slot(#[trigger] keys[i]) by {
        assert(distinct_keys(live)[i] == keys[i]);
        assert(distinct_keys(live).contains(keys[i]));
    }
    assert(keys.no_duplicates()) by {
        assert forall|i: int, j: int| 0 <= i < keys.len() && 0 <= j < keys.len() && i != j implies keys[i]
            != keys[j] by {
            assert(distinct_keys(live)[i] == keys[i]);
            assert(distinct_keys(live)[j] == keys[j]);
        }
    }
    lemma_filled_slots(bytes, keys, REPORT_KEYS as int);
    assert(filled_slots(bytes, REPORT_KEYS as int) == keys);
    let shown = shown_codes(bytes);
    assert(shown == modifiers + keys);
    assert forall|i: int| 0 <= i < modifiers.len() implies !takes_slot(
        #[trigger] modifiers[i],
    ) by {
        assert(modifiers.contains(modifiers[i]));
        lemma_set_modifiers(mask, 8, modifiers[i]);
    }
    lemma_keys_after_modifiers(modifiers, keys, keys.len() as int);
    assert(keys.take(keys.len() as int) =~= keys);
    assert(report_keys(shown) == keys);
    lemma_modifier_bits();
    lemma_shown_modifier(mask, keys, 0xE0);
    lemma_shown_modifier(mask, keys, 0xE1);
    lemma_shown_modifier(mask, keys, 0xE2);
    lemma_shown_modifier(mask, keys, 0xE3);
    lemma_shown_modifier(mask, keys, 0xE4);
    lemma_shown_modifier(mask, keys, 0xE5);
    lemma_shown_modifier(mask, keys, 0xE6);
    lemma_shown_modifier(mask, keys, 0xE7);
    lemma_same_bits(modifier_mask(shown), mask);
    assert(report_bytes(shown) =~= bytes);
}

} // verus!
