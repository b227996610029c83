//! Bencode: the grammar, the parser and the values it yields.
use vstd::prelude::*;
use vstd::slice::slice_subrange;
use vstd::string::StringExecFns;

use crate::byte_slices::{
    bytes_equal, bytes_less, lemma_lex_irreflexive, lemma_lex_total, lemma_lex_transitive, lex_less,
};
use crate::text::{decimal, push_decimal};

verus! {

/// Why a byte string is not a bencoded value.
#[derive(Debug, Clone, Copy, PartialEq, Eq, Structural)]
pub enum ParseError {
    /// The input ends in the middle of a value.
    EOF,
    /// There is no input at all.
    EmptyInput,
    /// A byte that cannot stand where it stands.
    UnexpectedToken(u8),
    /// A length or an integer that does not fit a machine word.
    NumberTooLarge,
}

pub type ParseResult<T> = Result<T, ParseError>;

impl ParseError {
    /// What the error says, in words.
    pub open spec fn text(self) -> Seq<char> {
        match self {
            ParseError::EOF => "End of file"@,
            ParseError::EmptyInput => "No input given"@,
            ParseError::UnexpectedToken(c) => "Unexpected byte: "@ + decimal(c as nat),
            ParseError::NumberTooLarge => "Number is too large"@,
        }
    }

    pub fn message(&self) -> (r: String)
        ensures
            r@ == self.text(),
    {
        match *self {
            ParseError::EOF => String::from_str("End of file"),
            ParseError::EmptyInput => String::from_str("No input given"),
            ParseError::UnexpectedToken(c) => {
                let mut text = String::from_str("Unexpected byte: ");
                push_decimal(&mut text, c as u64);
                text
            },
            ParseError::NumberTooLarge => String::from_str("Number is too large"),
        }
    }
}

/// A bencoded value, as mathematics: what a [`BValue`] stands for.
pub enum BVal {
    Int(int),
    Str(Seq<u8>),
    List(Seq<BVal>),
    /// The entries of a dictionary, and the text it was read from.
    Dict(Map<Seq<u8>, BVal>, Seq<u8>),
}

// ---------------------------------------------------------------------------
// The grammar
// ---------------------------------------------------------------------------

pub open spec fn is_digit(b: u8) -> bool {
    48 <= b <= 57
}

/// How many digits follow each other in `buf`, from `pos` on.
pub open spec fn digit_run(buf: Seq<u8>, pos: int) -> nat
    decreases buf.len() - pos,
{
    if 0 <= pos < buf.len() && is_digit(buf[pos]) {
        1 + digit_run(buf, pos + 1)
    } else {
        0
    }
}

/// The number that decimal digits write; no digits at all write zero.
pub open spec fn decimal_value(digits: Seq<u8>) -> nat
    decreases digits.len(),
{
    if digits.len() == 0 {
        0
    } else {
        10 * decimal_value(digits.drop_last()) + (digits.last() - 48) as nat
    }
}

/// The number written by the digits that stand at `pos`.
pub open spec fn number_at(buf: Seq<u8>, pos: int) -> nat {
    decimal_value(buf.subrange(pos, pos + digit_run(buf, pos)))
}

/// A number at `pos` that must be followed by the byte `end`, and must not
/// exceed `limit`: its value and the position behind `end`.
pub open spec fn terminated_number_at(
    buf: Seq<u8>,
    pos: int,
    end: u8,
    limit: int,
) -> ParseResult<(nat, int)> {
    let stop = pos + digit_run(buf, pos);
    if number_at(buf, pos) > limit {
        Err(ParseError::NumberTooLarge)
    } else if stop >= buf.len() {
        Err(ParseError::EOF)
    } else if buf[stop] != end {
        Err(ParseError::UnexpectedToken(buf[stop]))
    } else {
        Ok((number_at(buf, pos), stop + 1))
    }
}

/// The `n` bytes at `pos`.
pub open spec fn bytes_at(buf: Seq<u8>, pos: int, n: nat) -> ParseResult<(Seq<u8>, int)> {
    if pos + n > usize::MAX {
        Err(ParseError::NumberTooLarge)
    } else if pos + n > buf.len() {
        Err(ParseError::EOF)
    } else {
        Ok((buf.subrange(pos, pos + n), pos + n))
    }
}

/// `<length>:<bytes>`
pub open spec fn string_at(buf: Seq<u8>, pos: int) -> ParseResult<(Seq<u8>, int)> {
    match terminated_number_at(buf, pos, 58, usize::MAX as int) {
        Err(e) => Err(e),
        Ok((n, start)) => bytes_at(buf, start, n),
    }
}

/// The byte `expected` at `pos`.
pub open spec fn byte_at(buf: Seq<u8>, pos: int, expected: u8) -> ParseResult<()> {
    if pos >= buf.len() {
        Err(ParseError::EOF)
    } else if buf[pos] != expected {
        Err(ParseError::UnexpectedToken(buf[pos]))
    } else {
        Ok(())
    }
}

/// `i<digits>e` or `i-<digits>e`
pub open spec fn int_at(buf: Seq<u8>, pos: int) -> ParseResult<(int, int)> {
    match byte_at(buf, pos, 105) {
        Err(e) => Err(e),
        Ok(()) => {
            let neg = pos + 1 < buf.len() && buf[pos + 1] == 45;
            let start = if neg { pos + 2 } else { pos + 1 };
            match terminated_number_at(buf, start, 101, isize::MAX as int) {
                Err(e) => Err(e),
                Ok((n, end)) => Ok((if neg { -(n as int) } else { n as int }, end)),
            }
        },
    }
}

/// The items of a list whose next item, or closing `e`, stands at `pos`.
pub open spec fn items_at(buf: Seq<u8>, pos: int) -> ParseResult<(Seq<BVal>, int)>
    decreases buf.len() - pos, 2int,
{
    if pos >= buf.len() {
        Err(ParseError::EOF)
    } else if buf[pos] == 101 {
        Ok((Seq::empty(), pos + 1))
    } else {
        match value_at(buf, pos) {
            Err(e) => Err(e),
            Ok((v, next)) => if pos < next <= buf.len() {
                match items_at(buf, next) {
                    Err(e) => Err(e),
                    Ok((rest, end)) => Ok((seq![v] + rest, end)),
                }
            } else {
                arbitrary()
            },
        }
    }
}

/// The entries of a dictionary whose next key, or closing `e`, stands at
/// `pos`, in the order in which they are written.
pub open spec fn entries_at(buf: Seq<u8>, pos: int) -> ParseResult<(Seq<(Seq<u8>, BVal)>, int)>
    decreases buf.len() - pos, 2int,
{
    if pos >= buf.len() {
        Err(ParseError::EOF)
    } else if buf[pos] == 101 {
        Ok((Seq::empty(), pos + 1))
    } else {
        match string_at(buf, pos) {
            Err(e) => Err(e),
            Ok((key, after_key)) => if pos < after_key <= buf.len() {
                match value_at(buf, after_key) {
                    Err(e) => Err(e),
                    Ok((v, next)) => if after_key < next <= buf.len() {
                        match entries_at(buf, next) {
                            Err(e) => Err(e),
                            Ok((rest, end)) => Ok((seq![(key, v)] + rest, end)),
                        }
                    } else {
                        arbitrary()
                    },
                }
            } else {
                arbitrary()
            },
        }
    }
}

/// The dictionary that holds `entries`. Where a key is written twice, what
/// was written last counts.
pub open spec fn dict_of(entries: Seq<(Seq<u8>, BVal)>) -> Map<Seq<u8>, BVal>
    decreases entries.len(),
{
    if entries.len() == 0 {
        Map::empty()
    } else {
        dict_of(entries.drop_last()).insert(entries.last().0, entries.last().1)
    }
}

/// The value that is written at `pos`, and the position behind it; or why
/// there is none.
pub open spec fn value_at(buf: Seq<u8>, pos: int) -> ParseResult<(BVal, int)>
    decreases buf.len() - pos, 1int,
{
    if pos >= buf.len() {
        Err(ParseError::EOF)
    } else if buf[pos] == 105 {
        match int_at(buf, pos) {
            Err(e) => Err(e),
            Ok((n, end)) => Ok((BVal::Int(n), end)),
        }
    } else if buf[pos] == 108 {
        match items_at(buf, pos + 1) {
            Err(e) => Err(e),
            Ok((items, end)) => Ok((BVal::List(items), end)),
        }
    } else if buf[pos] == 100 {
        match entries_at(buf, pos + 1) {
            Err(e) => Err(e),
            Ok((entries, end)) => Ok(
                (BVal::Dict(dict_of(entries), buf.subrange(pos, end)), end),
            ),
        }
    } else if is_digit(buf[pos]) {
        match string_at(buf, pos) {
            Err(e) => Err(e),
            Ok((s, end)) => Ok((BVal::Str(s), end)),
        }
    } else {
        Err(ParseError::UnexpectedToken(buf[pos]))
    }
}

/// The bencoded value that `input` starts with. What follows it does not
/// matter.
pub open spec fn parsed(input: Seq<u8>) -> ParseResult<BVal> {
    if input.len() == 0 {
        Err(ParseError::EmptyInput)
    } else {
        match value_at(input, 0) {
            Err(e) => Err(e),
            Ok((v, end)) => Ok(v),
        }
    }
}

pub proof fn lemma_digit_run_bound(buf: Seq<u8>, pos: int)
    requires
        0 <= pos <= buf.len(),
    ensures
        pos + digit_run(buf, pos) <= buf.len(),
    decreases buf.len() - pos,
{
    if pos < buf.len() && is_digit(buf[pos]) {
        lemma_digit_run_bound(buf, pos + 1);
    }
}

/// Every part of the grammar that is there ends inside the input, behind the
/// place where it starts.
pub proof fn lemma_value_advances(buf: Seq<u8>, pos: int)
    requires
        0 <= pos,
    ensures
        value_at(buf, pos) matches Ok((v, end)) ==> pos < end <= buf.len(),
    decreases buf.len() - pos, 1int,
{
    if pos < buf.len() {
        if buf[pos] == 105 {
            lemma_digit_run_bound(buf, pos + 1);
            if pos + 2 <= buf.len() {
                lemma_digit_run_bound(buf, pos + 2);
            }
        } else if buf[pos] == 108 {
            lemma_items_advance(buf, pos + 1);
        } else if buf[pos] == 100 {
            lemma_entries_advance(buf, pos + 1);
        } else {
            lemma_string_advances(buf, pos);
        }
    }
}

pub proof fn lemma_string_advances(buf: Seq<u8>, pos: int)
    requires
        0 <= pos,
    ensures
        string_at(buf, pos) matches Ok((s, end)) ==> pos < end <= buf.len(),
{
    if pos <= buf.len() {
        lemma_digit_run_bound(buf, pos);
    }
}

pub proof fn lemma_items_advance(buf: Seq<u8>, pos: int)
    requires
        0 <= pos,
    ensures
        items_at(buf, pos) matches Ok((items, end)) ==> pos < end <= buf.len(),
    decreases buf.len() - pos, 2int,
{
    if pos < buf.len() && buf[pos] != 101 {
        lemma_value_advances(buf, pos);
        if let Ok((v, next)) = value_at(buf, pos) {
            lemma_items_advance(buf, next);
        }
    }
}

pub proof fn lemma_entries_advance(buf: Seq<u8>, pos: int)
    requires
        0 <= pos,
    ensures
        entries_at(buf, pos) matches Ok((entries, end)) ==> pos < end <= buf.len(),
    decreases buf.len() - pos, 2int,
{
    if pos < buf.len() && buf[pos] != 101 {
        lemma_string_advances(buf, pos);
        if let Ok((key, after_key)) = string_at(buf, pos) {
            lemma_value_advances(buf, after_key);
            if let Ok((v, next)) = value_at(buf, after_key) {
                lemma_entries_advance(buf, next);
            }
        }
    }
}

pub proof fn lemma_decimal_value_grows(digits: Seq<u8>, n: int)
    requires
        0 <= n <= digits.len(),
        forall|i: int| 0 <= i < digits.len() ==> is_digit(#[trigger] digits[i]),
    ensures
        decimal_value(digits.take(n)) <= decimal_value(digits),
    decreases digits.len(),
{
    if n == digits.len() {
        assert(digits.take(n) =~= digits);
    } else {
        lemma_decimal_value_grows(digits.drop_last(), n);
        assert(digits.drop_last().take(n) =~= digits.take(n));
    }
}

// ---------------------------------------------------------------------------
// Values
// ---------------------------------------------------------------------------

/// A bencoded value. Strings borrow from the text they were read from, and a
/// dictionary keeps the whole of its own text beside its entries.
#[derive(Debug, PartialEq, Eq)]
pub enum BValue<'a> {
    Int(isize),
    String(&'a [u8]),
    List(Vec<BValue<'a>>),
    Dict(Dict<'a>, &'a [u8]),
}

/// The entries of a dictionary: every key once, in lexicographic order.
#[derive(Debug, PartialEq, Eq)]
pub struct Dict<'a> {
    entries: Vec<(&'a [u8], BValue<'a>)>,
}

/// What a value stands for.
pub closed spec fn model(v: BValue) -> BVal
    decreases v,
{
    match v {
        BValue::Int(n) => BVal::Int(n as int),
        BValue::String(s) => BVal::Str(s@),
        BValue::List(l) => BVal::List(
            Seq::new(
                l@.len(),
                |i: int|
                    if 0 <= i < l@.len() {
                        model(l@[i])
                    } else {
                        arbitrary()
                    },
            ),
        ),
        BValue::Dict(d, raw) => BVal::Dict(dict_of(entry_models(d)), raw@),
    }
}

spec fn entry_models(d: Dict) -> Seq<(Seq<u8>, BVal)>
    decreases d,
{
    Seq::new(
        d.entries@.len(),
        |i: int|
            if 0 <= i < d.entries@.len() {
                (d.entries@[i].0@, model(d.entries@[i].1))
            } else {
                arbitrary()
            },
    )
}

/// Whether the dictionaries inside a value, at any depth, have their keys in
/// order.
pub closed spec fn well_formed(v: BValue) -> bool
    decreases v,
{
    match v {
        BValue::List(l) => forall|i: int| 0 <= i < l@.len() ==> well_formed(#[trigger] l@[i]),
        BValue::Dict(d, raw) => dict_well_formed(d),
        _ => true,
    }
}

spec fn dict_well_formed(d: Dict) -> bool
    decreases d,
{
    &&& forall|i: int, j: int|
        0 <= i < j < d.entries@.len() ==> lex_less(
            (#[trigger] d.entries@[i]).0@,
            (#[trigger] d.entries@[j]).0@,
        )
    &&& forall|i: int|
        0 <= i < d.entries@.len() ==> well_formed((#[trigger] d.entries@[i]).1)
}

impl<'a> View for BValue<'a> {
    type V = BVal;

    open spec fn view(&self) -> BVal {
        model(*self)
    }
}

impl<'a> View for Dict<'a> {
    type V = Map<Seq<u8>, BVal>;

    closed spec fn view(&self) -> Map<Seq<u8>, BVal> {
        dict_of(entry_models(*self))
    }
}

impl<'a> BValue<'a> {
    pub open spec fn wf(&self) -> bool {
        well_formed(*self)
    }
}

impl<'a> Dict<'a> {
    pub closed spec fn wf(&self) -> bool {
        dict_well_formed(*self)
    }
}

/// What the items of a list stand for.
pub open spec fn models(items: Seq<BValue>) -> Seq<BVal> {
    items.map_values(|v: BValue| model(v))
}

/// What the constructors stand for.
pub broadcast proof fn lemma_model(v: BValue)
    ensures
        #![trigger model(v)]
        match v {
            BValue::Int(n) => model(v) == BVal::Int(n as int),
            BValue::String(s) => model(v) == BVal::Str(s@),
            BValue::List(l) => model(v) == BVal::List(models(l@)),
            BValue::Dict(d, raw) => model(v) == BVal::Dict(d@, raw@),
        },
{
    if let BValue::List(l) = v {
        assert(models(l@) =~= model(v)->List_0);
    }
}

/// When the constructors give a well-formed value.
pub broadcast proof fn lemma_well_formed(v: BValue)
    ensures
        #![trigger well_formed(v)]
        match v {
            BValue::List(l) => well_formed(v) == (forall|i: int|
                0 <= i < l@.len() ==> well_formed(#[trigger] l@[i])),
            BValue::Dict(d, raw) => well_formed(v) == d.wf(),
            _ => well_formed(v),
        },
{
}

spec fn distinct_keys(s: Seq<(Seq<u8>, BVal)>) -> bool {
    forall|i: int, j: int|
        0 <= i < j < s.len() ==> (#[trigger] s[i]).0 != (#[trigger] s[j]).0
}

/// With distinct keys, a dictionary holds just the entries it is made of.
proof fn lemma_dict_of_distinct(s: Seq<(Seq<u8>, BVal)>)
    requires
        distinct_keys(s),
    ensures
        forall|i: int|
            0 <= i < s.len() ==> dict_of(s).contains_key((#[trigger] s[i]).0) && dict_of(
                s,
            )[s[i].0] == s[i].1,
        forall|k: Seq<u8>| #[trigger]
            dict_of(s).contains_key(k) ==> exists|i: int|
                0 <= i < s.len() && (#[trigger] s[i]).0 == k,
    decreases s.len(),
{
    if s.len() > 0 {
        let init = s.drop_last();
        lemma_dict_of_distinct(init);
        assert forall|i: int| 0 <= i < s.len() implies dict_of(s).contains_key((#[trigger] s[i]).0)
            && dict_of(s)[s[i].0] == s[i].1 by {
            if i < init.len() {
                assert(init[i] == s[i]);
            }
        }
        assert forall|k: Seq<u8>| #[trigger] dict_of(s).contains_key(k) implies exists|i: int|
            0 <= i < s.len() && (#[trigger] s[i]).0 == k by {
            if k != s.last().0 {
                assert(dict_of(init).contains_key(k));
                let i = choose|i: int| 0 <= i < init.len() && (#[trigger] init[i]).0 == k;
                assert(s[i].0 == k);
            } else {
                assert(s[s.len() - 1].0 == k);
            }
        }
    }
}

proof fn lemma_sorted_distinct(d: Dict)
    requires
        dict_well_formed(d),
    ensures
        distinct_keys(entry_models(d)),
{
    let s = entry_models(d);
    assert forall|i: int, j: int| 0 <= i < j < s.len() implies (#[trigger] s[i]).0 != (
    #[trigger] s[j]).0 by {
        assert(lex_less(d.entries@[i].0@, d.entries@[j].0@));
        lemma_lex_irreflexive(s[i].0);
    }
}

impl<'a> Dict<'a> {
    /// A dictionary without entries.
    pub fn new() -> (r: Dict<'a>)
        ensures
            r.wf(),
            r@ == Map::<Seq<u8>, BVal>::empty(),
    {
        let r = Dict { entries: Vec::new() };
        assert(entry_models(r) =~= Seq::empty());
        r
    }

    /// Gives `key` the value `value`, whether or not it had one.
    pub fn insert(&mut self, key: &'a [u8], value: BValue<'a>)
        requires
            old(self).wf(),
            value.wf(),
        ensures
            final(self).wf(),
            final(self)@ == old(self)@.insert(key@, value@),
    {
        let ghost before = entry_models(*self);
        let ghost start = *self;
        let mut i: usize = 0;
        while i < self.entries.len() && bytes_less(self.entries[i].0, key)
            invariant
                *self == start,
                i <= self.entries@.len(),
                forall|j: int| 0 <= j < i ==> lex_less((#[trigger] self.entries@[j]).0@, key@),
            decreases self.entries@.len() - i,
        {
            i = i + 1;
        }
        proof {
            lemma_sorted_distinct(start);
            lemma_dict_of_distinct(before);
        }
        if i < self.entries.len() && bytes_equal(self.entries[i].0, key) {
            let ghost was = self.entries@;
            self.entries.set(i, (key, value));
            proof {
                let after = entry_models(*self);
                assert(dict_well_formed(*self));
                lemma_sorted_distinct(*self);
                lemma_dict_of_distinct(after);
                assert(after =~= before.update(i as int, (key@, value@)));
                assert(dict_of(after) =~= dict_of(before).insert(key@, value@)) by {
                    lemma_replaced_entry(before, after, i as int);
                }
            }
        } else {
            self.entries.insert(i, (key, value));
            proof {
                let after = entry_models(*self);
                assert forall|a: int, b: int| 0 <= a < b < self.entries@.len() implies lex_less(
                    (#[trigger] self.entries@[a]).0@,
                    (#[trigger] self.entries@[b]).0@,
                ) by {
                    lemma_inserted_in_order(start, key@, i as int, a, b);
                }
                assert forall|a: int| 0 <= a < self.entries@.len() implies well_formed(
                    (#[trigger] self.entries@[a]).1,
                ) by {
                    if a < i {
                        assert(self.entries@[a] == start.entries@[a]);
                    } else if a > i {
                        assert(self.entries@[a] == start.entries@[a - 1]);
                    }
                }
                lemma_sorted_distinct(*self);
                lemma_dict_of_distinct(after);
                assert(after =~= before.insert(i as int, (key@, value@)));
                assert(dict_of(after) =~= dict_of(before).insert(key@, value@)) by {
                    lemma_added_entry(before, after, i as int);
                }
            }
        }
    }

    /// Takes the value of `key` out of the dictionary.
    pub fn remove(&mut self, key: &[u8]) -> (r: Option<BValue<'a>>)
        requires
            old(self).wf(),
        ensures
            final(self).wf(),
            final(self)@ == old(self)@.remove(key@),
            match r {
                Some(v) => v.wf() && old(self)@.contains_key(key@) && v@ == old(self)@[key@],
                None => !old(self)@.contains_key(key@),
            },
    {
        let ghost start = *self;
        let ghost before = entry_models(*self);
        proof {
            lemma_sorted_distinct(start);
            lemma_dict_of_distinct(before);
        }
        let mut i: usize = 0;
        while i < self.entries.len()
            invariant
                *self == start,
                start == *old(self),
                before == entry_models(start),
                dict_well_formed(start),
                distinct_keys(before),
                i <= self.entries@.len(),
                forall|j: int| 0 <= j < i ==> (#[trigger] before[j]).0 != key@,
                forall|j: int|
                    0 <= j < before.len() ==> dict_of(before).contains_key((#[trigger] before[j]).0)
                        && dict_of(before)[before[j].0] == before[j].1,
            decreases self.entries@.len() - i,
        {
            if bytes_equal(self.entries[i].0, key) {
                let (k, v) = self.entries.remove(i);
                proof {
                    let after = entry_models(*self);
                    assert(before[i as int] == (k@, v@));
                    assert forall|a: int, b: int| 0 <= a < b < self.entries@.len() implies lex_less(
                        (#[trigger] self.entries@[a]).0@,
                        (#[trigger] self.entries@[b]).0@,
                    ) by {
                        let a0 = if a < i { a } else { a + 1 };
                        let b0 = if b < i { b } else { b + 1 };
                        assert(self.entries@[a] == start.entries@[a0]);
                        assert(self.entries@[b] == start.entries@[b0]);
                    }
                    assert forall|a: int| 0 <= a < self.entries@.len() implies well_formed(
                        (#[trigger] self.entries@[a]).1,
                    ) by {
                        let a0 = if a < i { a } else { a + 1 };
                        assert(self.entries@[a] == start.entries@[a0]);
                    }
                    lemma_sorted_distinct(*self);
                    lemma_dict_of_distinct(after);
                    assert(after =~= before.remove(i as int));
                    lemma_removed_entry(before, after, i as int);
                }
                return Some(v);
            }
            i = i + 1;
        }
        proof {
            lemma_dict_of_distinct(before);
            if dict_of(before).contains_key(key@) {
                let j = choose|j: int| 0 <= j < before.len() && (#[trigger] before[j]).0 == key@;
                assert(false);
            }
            assert(dict_of(before).remove(key@) =~= dict_of(before));
        }
        None
    }

    /// The dictionary with the given entries; of two with one key the later
    /// counts.
    pub fn from_entries(entries: Vec<(&'a [u8], BValue<'a>)>) -> (r: Dict<'a>)
        requires
            forall|i: int| 0 <= i < entries@.len() ==> (#[trigger] entries@[i]).1.wf(),
        ensures
            r.wf(),
            r@ == dict_of(entries@.map_values(|e: (&'a [u8], BValue<'a>)| (e.0@, e.1@))),
    {
        let ghost all = entries@;
        let ghost modelled = entries@.map_values(|e: (&'a [u8], BValue<'a>)| (e.0@, e.1@));
        let mut d = Dict::new();
        assert(modelled.take(0) =~= Seq::empty());
        for entry in it: entries
            invariant
                it.seq() == all,
                modelled == all.map_values(|e: (&'a [u8], BValue<'a>)| (e.0@, e.1@)),
                forall|i: int| 0 <= i < all.len() ==> (#[trigger] all[i]).1.wf(),
                d.wf(),
                d@ == dict_of(modelled.take(it.index())),
        {
            let (key, value) = entry;
            proof {
                assert(entry == all[it.index()]);
                let grown = modelled.take(it.index() + 1);
                assert(grown.drop_last() =~= modelled.take(it.index()));
                assert(grown.last() == (key@, value@));
            }
            d.insert(key, value);
        }
        assert(modelled.take(modelled.len() as int) =~= modelled);
        d
    }
}

proof fn lemma_inserted_in_order(d: Dict, key: Seq<u8>, i: int, a: int, b: int)
    requires
        dict_well_formed(d),
        0 <= i <= d.entries@.len(),
        forall|j: int| 0 <= j < i ==> lex_less((#[trigger] d.entries@[j]).0@, key),
        i < d.entries@.len() ==> !lex_less(d.entries@[i].0@, key) && d.entries@[i].0@ != key,
        0 <= a < b <= d.entries@.len(),
    ensures
        ({
            let ka = if a < i { d.entries@[a].0@ } else if a == i { key } else { d.entries@[a - 1].0@ };
            let kb = if b < i { d.entries@[b].0@ } else if b == i { key } else { d.entries@[b - 1].0@ };
            lex_less(ka, kb)
        }),
{
    if i < d.entries@.len() {
        lemma_lex_total(key, d.entries@[i].0@);
        if a == i && b > i + 1 {
            lemma_lex_transitive(key, d.entries@[i].0@, d.entries@[b - 1].0@);
        }
    }
}

proof fn lemma_replaced_entry(before: Seq<(Seq<u8>, BVal)>, after: Seq<(Seq<u8>, BVal)>, i: int)
    requires
        distinct_keys(before),
        distinct_keys(after),
        0 <= i < before.len(),
        after == before.update(i, after[i]),
        before[i].0 == after[i].0,
    ensures
        dict_of(after) == dict_of(before).insert(after[i].0, after[i].1),
{
    lemma_dict_of_distinct(before);
    lemma_dict_of_distinct(after);
    let x = dict_of(after);
    let y = dict_of(before).insert(after[i].0, after[i].1);
    assert forall|k: Seq<u8>| #[trigger]
        x.dom().contains(k) == y.dom().contains(k) && (x.dom().contains(k) ==> x[k] == y[k]) by {
        if x.contains_key(k) {
            let j = choose|j: int| 0 <= j < after.len() && (#[trigger] after[j]).0 == k;
            if j != i {
                assert(before[j] == after[j]);
            }
        }
        if y.contains_key(k) && k != after[i].0 {
            assert(dict_of(before).contains_key(k));
            let j = choose|j: int| 0 <= j < before.len() && (#[trigger] before[j]).0 == k;
            assert(after[j] == before[j]);
        }
    }
    assert(x =~= y);
}

proof fn lemma_added_entry(before: Seq<(Seq<u8>, BVal)>, after: Seq<(Seq<u8>, BVal)>, i: int)
    requires
        distinct_keys(before),
        distinct_keys(after),
        0 <= i <= before.len(),
        i < after.len(),
        after == before.insert(i, after[i]),
    ensures
        dict_of(after) == dict_of(before).insert(after[i].0, after[i].1),
{
    lemma_dict_of_distinct(before);
    lemma_dict_of_distinct(after);
    let x = dict_of(after);
    let y = dict_of(before).insert(after[i].0, after[i].1);
    assert forall|k: Seq<u8>| #[trigger]
        x.dom().contains(k) == y.dom().contains(k) && (x.dom().contains(k) ==> x[k] == y[k]) by {
        if x.contains_key(k) {
            let j = choose|j: int| 0 <= j < after.len() && (#[trigger] after[j]).0 == k;
            if j < i {
                assert(before[j] == after[j]);
            } else if j > i {
                assert(before[j - 1] == after[j]);
            }
        }
        if y.contains_key(k) && k != after[i].0 {
            assert(dict_of(before).contains_key(k));
            let j = choose|j: int| 0 <= j < before.len() && (#[trigger] before[j]).0 == k;
            if j < i {
                assert(after[j] == before[j]);
            } else {
                assert(after[j + 1] == before[j]);
            }
        }
    }
    assert(x =~= y);
}

proof fn lemma_removed_entry(before: Seq<(Seq<u8>, BVal)>, after: Seq<(Seq<u8>, BVal)>, i: int)
    requires
        distinct_keys(before),
        distinct_keys(after),
        0 <= i < before.len(),
        after == before.remove(i),
    ensures
        dict_of(after) == dict_of(before).remove(before[i].0),
{
    assert(before =~= after.insert(i, before[i]));
    lemma_added_entry(after, before, i);
    lemma_dict_of_distinct(after);
    if dict_of(after).contains_key(before[i].0) {
        let j = choose|j: int| 0 <= j < after.len() && (#[trigger] after[j]).0 == before[i].0;
        if j < i {
            assert(before[j] == after[j]);
        } else {
            assert(before[j + 1] == after[j]);
        }
        assert(false);
    }
    assert(dict_of(after) =~= dict_of(before).remove(before[i].0));
}

// ---------------------------------------------------------------------------
// The parser
// ---------------------------------------------------------------------------

/// A position in a byte string that is being read.
pub struct Parser<'a> {
    pub buf: &'a [u8],
    pub next_pos: usize,
}

/// What `next_pos` can be once something has been read, or reading has failed.
pub open spec fn moved_on(before: Parser, after: Parser) -> bool {
    &&& after.buf@ == before.buf@
    &&& before.next_pos <= after.next_pos <= before.buf@.len()
}

impl<'a> Parser<'a> {
    /// A parser is never past the end of what it reads.
    pub open spec fn wf(self) -> bool {
        self.next_pos <= self.buf@.len()
    }

    /// A parser at the start of `input`, which must not be empty.
    pub fn new(input: &'a [u8]) -> (r: ParseResult<Parser<'a>>)
        ensures
            match r {
                Ok(p) => input@.len() > 0 && p.buf@ == input@ && p.next_pos == 0 && p.wf(),
                Err(e) => input@.len() == 0 && e == ParseError::EmptyInput,
            },
    {
        if input.len() == 0 {
            return Err(ParseError::EmptyInput);
        }
        Ok(Parser { buf: input, next_pos: 0 })
    }

    /// Reads one byte.
    pub fn next_byte(&mut self) -> (r: ParseResult<u8>)
        requires
            old(self).wf(),
        ensures
            final(self).buf@ == old(self).buf@,
            match r {
                Ok(b) => old(self).next_pos < old(self).buf@.len() && b
                    == old(self).buf@[old(self).next_pos as int] && final(self).next_pos == old(
                    self,
                ).next_pos + 1,
                Err(e) => old(self).next_pos >= old(self).buf@.len() && e == ParseError::EOF
                    && final(self).next_pos == old(self).next_pos,
            },
    {
        if self.next_pos >= self.buf.len() {
            return Err(ParseError::EOF);
        }
        let byte = self.buf[self.next_pos];
        self.next_pos = self.next_pos + 1;
        Ok(byte)
    }

    /// The byte that comes next; it stays unread.
    pub fn peek(&self) -> (r: ParseResult<u8>)
        ensures
            match r {
                Ok(b) => self.next_pos < self.buf@.len() && b == self.buf@[self.next_pos as int],
                Err(e) => self.next_pos >= self.buf@.len() && e == ParseError::EOF,
            },
    {
        if self.next_pos >= self.buf.len() {
            return Err(ParseError::EOF);
        }
        Ok(self.buf[self.next_pos])
    }

    /// Reads `n` bytes, or none where fewer are left.
    pub fn take_next_bytes(&mut self, n: usize) -> (r: ParseResult<&'a [u8]>)
        requires
            old(self).wf(),
        ensures
            final(self).buf@ == old(self).buf@,
            match bytes_at(old(self).buf@, old(self).next_pos as int, n as nat) {
                Ok((s, end)) => r matches Ok(t) && t@ == s && final(self).next_pos == end,
                Err(e) => r == Err::<&'a [u8], ParseError>(e) && final(self).next_pos == old(
                    self,
                ).next_pos,
            },
    {
        let start = self.next_pos;
        let end = match start.checked_add(n) {
            Some(end) => end,
            None => return Err(ParseError::NumberTooLarge),
        };
        if end > self.buf.len() {
            return Err(ParseError::EOF);
        }
        self.next_pos = end;
        Ok(slice_subrange(self.buf, start, end))
    }

    /// Reads the length in front of a string, and the colon behind it.
    pub fn read_str_length(&mut self) -> (r: ParseResult<usize>)
        requires
            old(self).wf(),
        ensures
            moved_on(*old(self), *final(self)),
            match terminated_number_at(
                old(self).buf@,
                old(self).next_pos as int,
                58,
                usize::MAX as int,
            ) {
                Ok((n, end)) => r matches Ok(m) && m == n && final(self).next_pos == end,
                Err(e) => r == Err::<usize, ParseError>(e),
            },
    {
        let mut result: usize = 0;
        let ghost buf = self.buf@;
        let ghost start = self.next_pos as int;
        proof {
            assert(buf.subrange(start, start) =~= Seq::empty());
        }
        loop
            invariant
                self.buf@ == buf,
                buf == old(self).buf@,
                start == old(self).next_pos,
                start <= self.next_pos,
                self.next_pos <= buf.len(),
                digit_run(buf, start) == (self.next_pos - start) + digit_run(
                    buf,
                    self.next_pos as int,
                ),
                result == decimal_value(buf.subrange(start, self.next_pos as int)),
            decreases buf.len() - self.next_pos,
        {
            let ghost at = self.next_pos as int;
            let c = match self.next_byte() {
                Ok(c) => c,
                Err(e) => {
                    return Err(e);
                },
            };
            if c >= 48 && c <= 57 {
                proof {
                    lemma_next_digit(buf, start, at);
                }
                let n: usize = (c - 48) as usize;
                let tens = match result.checked_mul(10) {
                    Some(tens) => tens,
                    None => {
                        return Err(ParseError::NumberTooLarge);
                    },
                };
                result = match tens.checked_add(n) {
                    Some(sum) => sum,
                    None => {
                        return Err(ParseError::NumberTooLarge);
                    },
                };
            } else if c == 58 {
                return Ok(result);
            } else {
                return Err(ParseError::UnexpectedToken(c));
            }
        }
    }

    /// Reads a string: `<length>:<bytes>`.
    pub fn parse_string(&mut self) -> (r: ParseResult<&'a [u8]>)
        requires
            old(self).wf(),
        ensures
            moved_on(*old(self), *final(self)),
            match string_at(old(self).buf@, old(self).next_pos as int) {
                Ok((s, end)) => r matches Ok(t) && t@ == s && final(self).next_pos == end,
                Err(e) => r == Err::<&'a [u8], ParseError>(e),
            },
    {
        match self.read_str_length() {
            Ok(len) => self.take_next_bytes(len),
            Err(e) => Err(e),
        }
    }

    /// Reads one byte, which has to be `expected`.
    pub fn accept_byte(&mut self, expected: u8) -> (r: ParseResult<()>)
        requires
            old(self).wf(),
        ensures
            moved_on(*old(self), *final(self)),
            r == byte_at(old(self).buf@, old(self).next_pos as int, expected),
            r is Ok ==> final(self).next_pos == old(self).next_pos + 1,
    {
        match self.next_byte() {
            Ok(next) => if next != expected {
                Err(ParseError::UnexpectedToken(next))
            } else {
                Ok(())
            },
            Err(e) => Err(e),
        }
    }

    /// Reads an integer: `i<digits>e` or `i-<digits>e`.
    pub fn parse_int(&mut self) -> (r: ParseResult<isize>)
        requires
            old(self).wf(),
        ensures
            moved_on(*old(self), *final(self)),
            match int_at(old(self).buf@, old(self).next_pos as int) {
                Ok((n, end)) => r matches Ok(m) && m == n && final(self).next_pos == end,
                Err(e) => r == Err::<isize, ParseError>(e),
            },
    {
        let ghost buf = self.buf@;
        let ghost pos = self.next_pos as int;
        match self.accept_byte(105) {
            Ok(()) => {},
            Err(e) => {
                return Err(e);
            },
        }
        let mut neg = false;
        let mut result: isize = 0;
        match self.peek() {
            Ok(first) => if first == 45 {
                neg = true;
                let _ = self.next_byte();
            },
            Err(_) => {},
        }
        let ghost start = self.next_pos as int;
        proof {
            assert(buf.subrange(start, start) =~= Seq::empty());
        }
        loop
            invariant
                self.buf@ == buf,
                buf == old(self).buf@,
                pos == old(self).next_pos,
                pos < buf.len(),
                start == pos + if neg {
                    2int
                } else {
                    1int
                },
                neg == (pos + 1 < buf.len() && buf[pos + 1] == 45),
                byte_at(buf, pos, 105) is Ok,
                start <= self.next_pos <= buf.len(),
                digit_run(buf, start) == (self.next_pos - start) + digit_run(
                    buf,
                    self.next_pos as int,
                ),
                result == decimal_value(buf.subrange(start, self.next_pos as int)),
            decreases buf.len() - self.next_pos,
        {
            let ghost at = self.next_pos as int;
            let c = match self.next_byte() {
                Ok(c) => c,
                Err(e) => {
                    return Err(e);
                },
            };
            if c >= 48 && c <= 57 {
                proof {
                    lemma_next_digit(buf, start, at);
                }
                let n: isize = (c - 48) as isize;
                let tens = match result.checked_mul(10) {
                    Some(tens) => tens,
                    None => {
                        return Err(ParseError::NumberTooLarge);
                    },
                };
                result = match tens.checked_add(n) {
                    Some(sum) => sum,
                    None => {
                        return Err(ParseError::NumberTooLarge);
                    },
                };
            } else if c == 101 {
                return Ok(
                    if neg {
                        -result
                    } else {
                        result
                    },
                );
            } else {
                return Err(ParseError::UnexpectedToken(c));
            }
        }
    }

    /// Reads a list: `l<items>e`.
    pub fn parse_list(&mut self) -> (r: ParseResult<Vec<BValue<'a>>>)
        requires
            old(self).wf(),
        ensures
            moved_on(*old(self), *final(self)),
            match byte_at(old(self).buf@, old(self).next_pos as int, 108) {
                Err(e) => r == Err::<Vec<BValue<'a>>, ParseError>(e),
                Ok(()) => match items_at(old(self).buf@, old(self).next_pos + 1) {
                    Ok((items, end)) => {
                        &&& r matches Ok(l)
                        &&& models(l@) == items
                        &&& forall|i: int| 0 <= i < l@.len() ==> (#[trigger] l@[i]).wf()
                        &&& final(self).next_pos == end
                    },
                    Err(e) => r == Err::<Vec<BValue<'a>>, ParseError>(e),
                },
            },
        decreases old(self).buf@.len() - old(self).next_pos, 2int,
    {
        let ghost buf = self.buf@;
        let ghost start = self.next_pos + 1;
        match self.accept_byte(108) {
            Ok(()) => {},
            Err(e) => {
                return Err(e);
            },
        }
        let mut list: Vec<BValue<'a>> = Vec::new();
        proof {
            assert(models(list@) =~= Seq::empty());
            if let Ok((rest, end)) = items_at(buf, start) {
                assert(Seq::<BVal>::empty() + rest =~= rest);
            }
        }
        loop
            invariant
                self.buf@ == buf,
                buf == old(self).buf@,
                start == old(self).next_pos + 1,
                start <= self.next_pos <= buf.len(),
                byte_at(buf, start - 1, 108) is Ok,
                forall|i: int| 0 <= i < list@.len() ==> (#[trigger] list@[i]).wf(),
                match items_at(buf, self.next_pos as int) {
                    Ok((rest, end)) => items_at(buf, start) == Ok::<(Seq<BVal>, int), ParseError>(
                        (models(list@) + rest, end),
                    ),
                    Err(e) => items_at(buf, start) == Err::<(Seq<BVal>, int), ParseError>(e),
                },
            decreases buf.len() - self.next_pos,
        {
            let ghost at = self.next_pos as int;
            let b = match self.peek() {
                Ok(b) => b,
                Err(e) => {
                    return Err(e);
                },
            };
            if b == 101 {
                let _ = self.next_byte();
                proof {
                    let so_far = models(list@);
                    assert(so_far + Seq::<BVal>::empty() =~= so_far);
                }
                return Ok(list);
            }
            proof {
                lemma_value_advances(buf, at);
            }
            let v = match self.parse_value() {
                Ok(v) => v,
                Err(e) => {
                    return Err(e);
                },
            };
            let ghost so_far = models(list@);
            let ghost mv = v@;
            list.push(v);
            proof {
                assert(models(list@) =~= so_far.push(mv));
                if let Ok((rest, end)) = items_at(buf, self.next_pos as int) {
                    assert(so_far + (seq![mv] + rest) =~= so_far.push(mv) + rest);
                }
            }
        }
    }

    /// Reads a dictionary: `d<key><value>...e`.
    pub fn parse_dict(&mut self) -> (r: ParseResult<Dict<'a>>)
        requires
            old(self).wf(),
        ensures
            moved_on(*old(self), *final(self)),
            match byte_at(old(self).buf@, old(self).next_pos as int, 100) {
                Err(e) => r == Err::<Dict<'a>, ParseError>(e),
                Ok(()) => match entries_at(old(self).buf@, old(self).next_pos + 1) {
                    Ok((entries, end)) => r matches Ok(d) && d@ == dict_of(entries) && d.wf()
                        && final(self).next_pos == end,
                    Err(e) => r == Err::<Dict<'a>, ParseError>(e),
                },
            },
        decreases old(self).buf@.len() - old(self).next_pos, 2int,
    {
        let ghost buf = self.buf@;
        let ghost start = self.next_pos + 1;
        match self.accept_byte(100) {
            Ok(()) => {},
            Err(e) => {
                return Err(e);
            },
        }
        let mut dict = Dict::new();
        let ghost mut read: Seq<(Seq<u8>, BVal)> = Seq::empty();
        proof {
            if let Ok((rest, end)) = entries_at(buf, start) {
                assert(read + rest =~= rest);
            }
        }
        loop
            invariant
                self.buf@ == buf,
                buf == old(self).buf@,
                start == old(self).next_pos + 1,
                start <= self.next_pos <= buf.len(),
                byte_at(buf, start - 1, 100) is Ok,
                dict.wf(),
                dict@ == dict_of(read),
                match entries_at(buf, self.next_pos as int) {
                    Ok((rest, end)) => entries_at(buf, start) == Ok::<
                        (Seq<(Seq<u8>, BVal)>, int),
                        ParseError,
                    >((read + rest, end)),
                    Err(e) => entries_at(buf, start) == Err::<
                        (Seq<(Seq<u8>, BVal)>, int),
                        ParseError,
                    >(e),
                },
            decreases buf.len() - self.next_pos,
        {
            let ghost at = self.next_pos as int;
            let b = match self.peek() {
                Ok(b) => b,
                Err(e) => {
                    return Err(e);
                },
            };
            if b == 101 {
                let _ = self.next_byte();
                proof {
                    assert(read + Seq::<(Seq<u8>, BVal)>::empty() =~= read);
                }
                return Ok(dict);
            }
            proof {
                lemma_string_advances(buf, at);
            }
            let key = match self.parse_string() {
                Ok(key) => key,
                Err(e) => {
                    return Err(e);
                },
            };
            proof {
                lemma_value_advances(buf, self.next_pos as int);
            }
            let value = match self.parse_value() {
                Ok(value) => value,
                Err(e) => {
                    return Err(e);
                },
            };
            proof {
                let entry = (key@, value@);
                if let Ok((rest, end)) = entries_at(buf, self.next_pos as int) {
                    assert(read + (seq![entry] + rest) =~= read.push(entry) + rest);
                }
                assert(read.push(entry).drop_last() =~= read);
                read = read.push(entry);
            }
            dict.insert(key, value);
        }
    }

    /// Reads any value.
    pub fn parse_value(&mut self) -> (r: ParseResult<BValue<'a>>)
        requires
            old(self).wf(),
        ensures
            moved_on(*old(self), *final(self)),
            match value_at(old(self).buf@, old(self).next_pos as int) {
                Ok((v, end)) => r matches Ok(bv) && bv@ == v && bv.wf() && final(self).next_pos
                    == end,
                Err(e) => r == Err::<BValue<'a>, ParseError>(e),
            },
        decreases old(self).buf@.len() - old(self).next_pos, 3int,
    {
        broadcast use lemma_model, lemma_well_formed;

        let b = match self.peek() {
            Ok(b) => b,
            Err(e) => {
                return Err(e);
            },
        };
        if b == 105 {
            match self.parse_int() {
                Ok(n) => Ok(BValue::Int(n)),
                Err(e) => Err(e),
            }
        } else if b == 108 {
            match self.parse_list() {
                Ok(list) => Ok(BValue::List(list)),
                Err(e) => Err(e),
            }
        } else if b == 100 {
            let dict_start = self.next_pos;
            proof {
                lemma_entries_advance(self.buf@, dict_start + 1);
            }
            match self.parse_dict() {
                Ok(dict) => {
                    let dict_end = self.next_pos;
                    let dict_str = slice_subrange(self.buf, dict_start, dict_end);
                    Ok(BValue::Dict(dict, dict_str))
                },
                Err(e) => Err(e),
            }
        } else if b >= 48 && b <= 57 {
            match self.parse_string() {
                Ok(string) => Ok(BValue::String(string)),
                Err(e) => Err(e),
            }
        } else {
            Err(ParseError::UnexpectedToken(b))
        }
    }
}

/// One more digit read: the run is one shorter, the number ten times larger
/// and the digit added; and the whole run never writes less than a part.
pub proof fn lemma_next_digit(buf: Seq<u8>, start: int, at: int)
    requires
        0 <= start <= at < buf.len(),
        is_digit(buf[at]),
        digit_run(buf, start) == (at - start) + digit_run(buf, at),
    ensures
        digit_run(buf, start) == (at + 1 - start) + digit_run(buf, at + 1),
        decimal_value(buf.subrange(start, at + 1)) == 10 * decimal_value(buf.subrange(start, at))
            + (buf[at] - 48),
        decimal_value(buf.subrange(start, at + 1)) <= number_at(buf, start),
{
    let longer = buf.subrange(start, at + 1);
    assert(longer.drop_last() =~= buf.subrange(start, at));
    lemma_digit_run_bound(buf, start);
    let run = buf.subrange(start, start + digit_run(buf, start));
    lemma_run_is_digits(buf, start);
    lemma_decimal_value_grows(run, at + 1 - start);
    assert(run.take(at + 1 - start) =~= longer);
}

proof fn lemma_run_is_digits(buf: Seq<u8>, pos: int)
    requires
        0 <= pos <= buf.len(),
    ensures
        forall|i: int|
            0 <= i < digit_run(buf, pos) ==> is_digit(
                #[trigger] buf.subrange(pos, pos + digit_run(buf, pos))[i],
            ),
    decreases buf.len() - pos,
{
    lemma_digit_run_bound(buf, pos);
    let n = digit_run(buf, pos);
    if n > 0 {
        lemma_run_is_digits(buf, pos + 1);
        let run = buf.subrange(pos, pos + n);
        let rest = buf.subrange(pos + 1, pos + 1 + digit_run(buf, pos + 1));
        assert forall|i: int| 0 <= i < n implies is_digit(#[trigger] run[i]) by {
            if i > 0 {
                assert(run[i] == rest[i - 1]);
            }
        }
    }
}

/// Reads the bencoded value that `input` starts with.
pub fn parse_bvalue<'a>(input: &'a [u8]) -> (r: ParseResult<BValue<'a>>)
    ensures
        match parsed(input@) {
            Ok(v) => r matches Ok(bv) && bv@ == v && bv.wf(),
            Err(e) => r == Err::<BValue<'a>, ParseError>(e),
        },
{
    match Parser::new(input) {
        Ok(mut parser) => parser.parse_value(),
        Err(e) => Err(e),
    }
}

} // verus!
