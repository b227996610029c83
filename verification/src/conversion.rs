//! Values of the program read out of bencoded values.
use vstd::prelude::*;
use vstd::string::StringExecFns;
use vstd::utf8::{decode_utf8, valid_utf8};

use crate::bencode::{lemma_model, lemma_well_formed, models, BVal, BValue, Dict};
use crate::byte_slices::copy_bytes;

verus! {

/// Why a bencoded value is not what was asked for.
#[derive(Debug, Clone, Copy, PartialEq, Eq, Structural)]
pub enum ConversionError {
    /// A string that had to be text is not UTF-8.
    BadEncoding,
    /// A value of another kind, or out of range.
    WrongBValueConstructor,
    /// A dictionary without the key.
    KeyDoesNotExist,
    OtherError,
    /// Files, or a text, too large to be counted.
    TooLarge,
    /// A tracker that cannot be talked to.
    UnusableTracker,
}

pub type ConversionResult<T> = Result<T, ConversionError>;

impl ConversionError {
    /// What the error says, in words.
    pub open spec fn text(self) -> Seq<char> {
        match self {
            ConversionError::BadEncoding => "String is not utf8-encoded"@,
            ConversionError::WrongBValueConstructor => "Unexpected Constructor"@,
            ConversionError::KeyDoesNotExist => "Key does not exist"@,
            ConversionError::OtherError => "Other error"@,
            ConversionError::TooLarge => "Too large"@,
            ConversionError::UnusableTracker => "Unusable tracker"@,
        }
    }

    pub fn message(&self) -> (r: String)
        ensures
            r@ == self.text(),
    {
        String::from_str(
            match *self {
                ConversionError::BadEncoding => "String is not utf8-encoded",
                ConversionError::WrongBValueConstructor => "Unexpected Constructor",
                ConversionError::KeyDoesNotExist => "Key does not exist",
                ConversionError::OtherError => "Other error",
                ConversionError::TooLarge => "Too large",
                ConversionError::UnusableTracker => "Unusable tracker",
            },
        )
    }
}

/// What a dictionary holds under `key`.
pub open spec fn looked_up(v: BVal, key: Seq<u8>) -> ConversionResult<BVal> {
    match v {
        BVal::Dict(entries, raw) => if entries.contains_key(key) {
            Ok(entries[key])
        } else {
            Err(ConversionError::KeyDoesNotExist)
        },
        _ => Err(ConversionError::WrongBValueConstructor),
    }
}

/// A dictionary without `key`; its text stays what it was.
pub open spec fn without(v: BVal, key: Seq<u8>) -> BVal {
    match v {
        BVal::Dict(entries, raw) => BVal::Dict(entries.remove(key), raw),
        _ => v,
    }
}

impl<'a> BValue<'a> {
    /// Takes the value under `key` out of a dictionary.
    pub fn get(&mut self, key: &'a [u8]) -> (r: ConversionResult<BValue<'a>>)
        requires
            old(self).wf(),
        ensures
            final(self).wf(),
            final(self)@ == without(old(self)@, key@),
            match looked_up(old(self)@, key@) {
                Ok(v) => r matches Ok(bv) && bv.wf() && bv@ == v,
                Err(e) => r == Err::<BValue<'a>, ConversionError>(e),
            },
    {
        broadcast use lemma_model, lemma_well_formed;

        match self {
            BValue::Dict(d, _) => {
                match d.remove(key) {
                    Some(bv) => Ok(bv),
                    None => Err(ConversionError::KeyDoesNotExist),
                }
            },
            _ => Err(ConversionError::WrongBValueConstructor),
        }
    }
}

/// `std::str::from_utf8` gives the text whose UTF-8 encoding `bytes` are, and
/// an error exactly where they are not UTF-8.
#[verifier::external_body]
fn text_of<'a>(bytes: &'a [u8]) -> (r: Option<&'a str>)
    ensures
        match r {
            Some(s) => valid_utf8(bytes@) && s@ == decode_utf8(bytes@),
            None => !valid_utf8(bytes@),
        },
{
    std::str::from_utf8(bytes).ok()
}

/// The bytes that a string value holds.
pub open spec fn bytes_value(v: BVal) -> ConversionResult<Seq<u8>> {
    match v {
        BVal::Str(s) => Ok(s),
        _ => Err(ConversionError::WrongBValueConstructor),
    }
}

/// The text that a string value holds.
pub open spec fn text_value(v: BVal) -> ConversionResult<Seq<char>> {
    match v {
        BVal::Str(s) => if valid_utf8(s) {
            Ok(decode_utf8(s))
        } else {
            Err(ConversionError::BadEncoding)
        },
        _ => Err(ConversionError::WrongBValueConstructor),
    }
}

/// The number that an integer value holds, if it lies in a range.
pub open spec fn integer_value(v: BVal, low: int, high: int) -> ConversionResult<int> {
    match v {
        BVal::Int(n) => if low <= n <= high {
            Ok(n)
        } else {
            Err(ConversionError::WrongBValueConstructor)
        },
        _ => Err(ConversionError::WrongBValueConstructor),
    }
}

/// What reading the items of a list one by one gives: all of them, or the
/// error of the first that cannot be read.
pub open spec fn items_value<A>(
    items: Seq<BVal>,
    item: spec_fn(BVal) -> ConversionResult<A>,
) -> ConversionResult<Seq<A>>
    decreases items.len(),
{
    if items.len() == 0 {
        Ok(Seq::empty())
    } else {
        match items_value(items.drop_last(), item) {
            Err(e) => Err(e),
            Ok(init) => match item(items.last()) {
                Err(e) => Err(e),
                Ok(last) => Ok(init.push(last)),
            },
        }
    }
}

/// What reading a list gives.
pub open spec fn list_value<A>(
    v: BVal,
    item: spec_fn(BVal) -> ConversionResult<A>,
) -> ConversionResult<Seq<A>> {
    match v {
        BVal::List(items) => items_value(items, item),
        _ => Err(ConversionError::WrongBValueConstructor),
    }
}

/// Whether a result of the program is what the grammar says it has to be.
pub open spec fn agrees<T: DeepView>(
    r: ConversionResult<T>,
    expected: ConversionResult<T::V>,
) -> bool {
    match expected {
        Ok(v) => r matches Ok(x) && x.deep_view() == v,
        Err(e) => r == Err::<T, ConversionError>(e),
    }
}

/// A type whose values can be read out of bencoded values.
pub trait FromBValue<'a>: Sized + DeepView {
    /// What reading `v` gives.
    spec fn reads(v: BVal) -> ConversionResult<<Self as DeepView>::V>;

    fn from_bvalue(bvalue: BValue<'a>) -> (r: ConversionResult<Self>)
        requires
            bvalue.wf(),
        ensures
            agrees(r, Self::reads(bvalue@)),
    ;
}

impl<'a> FromBValue<'a> for &'a [u8] {
    open spec fn reads(v: BVal) -> ConversionResult<Seq<u8>> {
        bytes_value(v)
    }

    fn from_bvalue(bvalue: BValue<'a>) -> (r: ConversionResult<&'a [u8]>) {
        broadcast use lemma_model;

        match bvalue {
            BValue::String(s) => {
                assert(s.deep_view() =~= s@);
                Ok(s)
            },
            _ => Err(ConversionError::WrongBValueConstructor),
        }
    }
}

impl<'a> FromBValue<'a> for Vec<u8> {
    open spec fn reads(v: BVal) -> ConversionResult<Seq<u8>> {
        bytes_value(v)
    }

    fn from_bvalue(bvalue: BValue<'a>) -> (r: ConversionResult<Vec<u8>>) {
        broadcast use lemma_model;

        match bvalue {
            BValue::String(s) => {
                let bytes = copy_bytes(s);
                assert(bytes.deep_view() =~= bytes@);
                Ok(bytes)
            },
            _ => Err(ConversionError::WrongBValueConstructor),
        }
    }
}

impl<'a> FromBValue<'a> for &'a str {
    open spec fn reads(v: BVal) -> ConversionResult<Seq<char>> {
        text_value(v)
    }

    fn from_bvalue(bvalue: BValue<'a>) -> (r: ConversionResult<&'a str>) {
        broadcast use lemma_model;

        match bvalue {
            BValue::String(bytes) => match text_of(bytes) {
                Some(s) => Ok(s),
                None => Err(ConversionError::BadEncoding),
            },
            _ => Err(ConversionError::WrongBValueConstructor),
        }
    }
}

impl<'a> FromBValue<'a> for isize {
    open spec fn reads(v: BVal) -> ConversionResult<isize> {
        match integer_value(v, isize::MIN as int, isize::MAX as int) {
            Ok(n) => Ok(n as isize),
            Err(e) => Err(e),
        }
    }

    fn from_bvalue(bvalue: BValue<'a>) -> (r: ConversionResult<isize>) {
        broadcast use lemma_model;

        match bvalue {
            BValue::Int(n) => Ok(n),
            _ => Err(ConversionError::WrongBValueConstructor),
        }
    }
}

impl<'a> FromBValue<'a> for usize {
    open spec fn reads(v: BVal) -> ConversionResult<usize> {
        match integer_value(v, 0, usize::MAX as int) {
            Ok(n) => Ok(n as usize),
            Err(e) => Err(e),
        }
    }

    fn from_bvalue(bvalue: BValue<'a>) -> (r: ConversionResult<usize>) {
        broadcast use lemma_model;

        match bvalue {
            BValue::Int(n) if n >= 0 => Ok(n as usize),
            _ => Err(ConversionError::WrongBValueConstructor),
        }
    }
}

impl<'a> FromBValue<'a> for u64 {
    open spec fn reads(v: BVal) -> ConversionResult<u64> {
        match integer_value(v, 0, u64::MAX as int) {
            Ok(n) => Ok(n as u64),
            Err(e) => Err(e),
        }
    }

    fn from_bvalue(bvalue: BValue<'a>) -> (r: ConversionResult<u64>) {
        broadcast use lemma_model;

        match bvalue {
            BValue::Int(n) if n >= 0 => Ok(n as u64),
            _ => Err(ConversionError::WrongBValueConstructor),
        }
    }
}

impl<'a> FromBValue<'a> for String {
    open spec fn reads(v: BVal) -> ConversionResult<Seq<char>> {
        text_value(v)
    }

    fn from_bvalue(bvalue: BValue<'a>) -> (r: ConversionResult<String>) {
        broadcast use lemma_model;

        match bvalue {
            BValue::String(bytes) => match text_of(bytes) {
                Some(s) => Ok(s.to_owned()),
                None => Err(ConversionError::BadEncoding),
            },
            _ => Err(ConversionError::WrongBValueConstructor),
        }
    }
}

impl<'a, T: FromBValue<'a>> FromBValue<'a> for Vec<T> {
    open spec fn reads(v: BVal) -> ConversionResult<Seq<<T as DeepView>::V>> {
        list_value(v, |item: BVal| T::reads(item))
    }

    fn from_bvalue(bvalue: BValue<'a>) -> (r: ConversionResult<Vec<T>>) {
        broadcast use lemma_model, lemma_well_formed;

        match bvalue {
            BValue::List(list) => {
                let ghost items = models(list@);
                let ghost all = list@;
                let ghost item = |item: BVal| T::reads(item);
                let mut result: Vec<T> = Vec::new();
                assert(items.take(0) =~= Seq::empty());
                assert(result.deep_view() =~= Seq::empty());
                for e in it: list
                    invariant
                        it.seq() == all,
                        items == models(all),
                        item == (|item: BVal| T::reads(item)),
                        bvalue@ == BVal::List(items),
                        items_value(items.take(it.index()), item) == Ok::<
                            Seq<<T as DeepView>::V>,
                            ConversionError,
                        >(result.deep_view()),
                        forall|i: int| 0 <= i < all.len() ==> (#[trigger] all[i]).wf(),
                {
                    let ghost i = it.index();
                    let ghost so_far = result.deep_view();
                    proof {
                        assert(e == all[i]);
                        assert(items[i] == e@);
                        assert(items.take(i + 1).drop_last() =~= items.take(i));
                    }
                    match T::from_bvalue(e) {
                        Ok(value) => {
                            result.push(value);
                            assert(result.deep_view() =~= so_far.push(value.deep_view()));
                        },
                        Err(error) => {
                            proof {
                                lemma_first_error(items, item, i + 1);
                            }
                            return Err(error);
                        },
                    }
                }
                assert(items.take(items.len() as int) =~= items);
                Ok(result)
            },
            _ => Err(ConversionError::WrongBValueConstructor),
        }
    }
}

/// The first error is the error of the whole list.
pub proof fn lemma_first_error<A>(
    items: Seq<BVal>,
    item: spec_fn(BVal) -> ConversionResult<A>,
    n: int,
)
    requires
        0 <= n <= items.len(),
        items_value(items.take(n), item) is Err,
    ensures
        items_value(items, item) == items_value(items.take(n), item),
    decreases items.len() - n,
{
    if n < items.len() {
        assert(items.take(n + 1).drop_last() =~= items.take(n));
        lemma_first_error(items, item, n + 1);
    } else {
        assert(items.take(n) =~= items);
    }
}

} // verus!
