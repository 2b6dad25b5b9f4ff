//! The self-describing envelope for custom payloads.
//!
//! A `ZData` value carries a type tag, an optional raw byte payload,
//! optional element-type and shape metadata for array-like payloads, and
//! an open, insertion-ordered bag of extra named fields. It is the unit
//! the type registry encodes to and decodes from.

use vstd::prelude::*;

use crate::error::VmpError;
use crate::value::{DynValue, ValModel, view_fields, field_of, upsert_field, find_field, upsert,
    str_eq};

verus! {

broadcast use vstd::std_specs::vec::group_vec_axioms, vstd::seq::group_seq_axioms;

/// Model of an envelope.
pub struct ZDataModel {
    pub ztype: Seq<char>,
    pub b: Option<Seq<u8>>,
    pub dtype: Option<Seq<char>>,
    pub shape: Option<Seq<usize>>,
    pub extra: Seq<(Seq<char>, ValModel)>,
}

/// The self-describing envelope for custom data types.
#[derive(Debug, PartialEq)]
pub struct ZData {
    /// Type identifier, dotted-namespace convention (e.g. "numpy.ndarray").
    pub ztype: String,
    /// Raw binary payload (arrays, images, and the like).
    pub b: Option<Vec<u8>>,
    /// Element data type for array-like payloads.
    pub dtype: Option<String>,
    /// Shape dimensions for array-like payloads.
    pub shape: Option<Vec<usize>>,
    /// Additional named fields, in insertion order.
    pub extra: Vec<(String, DynValue)>,
}

impl DeepView for ZData {
    type V = ZDataModel;

    open spec fn deep_view(&self) -> ZDataModel {
        ZDataModel {
            ztype: self.ztype@,
            b: match self.b {
                Some(bb) => Some(bb@),
                None => None,
            },
            dtype: match self.dtype {
                Some(d) => Some(d@),
                None => None,
            },
            shape: match self.shape {
                Some(sh) => Some(sh@),
                None => None,
            },
            extra: view_fields(self.extra@),
        }
    }
}

impl ZData {
    /// A new envelope with the given type tag and nothing else.
    pub fn new(ztype: &str) -> (r: Self)
        ensures
            r.ztype@ == ztype@,
            r.b is None,
            r.dtype is None,
            r.shape is None,
            r.extra@ == Seq::<(String, DynValue)>::empty(),
    {
        ZData {
            ztype: ztype.to_owned(),
            b: None,
            dtype: None,
            shape: None,
            extra: Vec::new(),
        }
    }

    /// Sets the binary payload.
    pub fn with_binary(self, data: Vec<u8>) -> (r: Self)
        ensures
            r == (ZData { b: Some(data), ..self }),
    {
        ZData { b: Some(data), ..self }
    }

    /// Sets the element data type.
    pub fn with_dtype(self, dtype: &str) -> (r: Self)
        ensures
            r.dtype matches Some(d) && d@ == dtype@,
            r == (ZData { dtype: r.dtype, ..self }),
    {
        ZData { dtype: Some(dtype.to_owned()), ..self }
    }

    /// Sets the shape.
    pub fn with_shape(self, shape: Vec<usize>) -> (r: Self)
        ensures
            r == (ZData { shape: Some(shape), ..self }),
    {
        ZData { shape: Some(shape), ..self }
    }

    /// Sets an extra field: an existing key is overwritten in place, a
    /// new key is appended.
    pub fn with_field(self, key: &str, value: DynValue) -> (r: Self)
        ensures
            r.ztype == self.ztype,
            r.b == self.b,
            r.dtype == self.dtype,
            r.shape == self.shape,
            view_fields(r.extra@) == upsert_field(view_fields(self.extra@), key@,
                value.deep_view()),
    {
        let ZData { ztype, b, dtype, shape, mut extra } = self;
        upsert(&mut extra, key.to_owned(), value);
        ZData { ztype, b, dtype, shape, extra }
    }

    /// Reads an extra field, first occurrence of the key.
    pub fn get_field<'a>(&'a self, key: &str) -> (r: Option<&'a DynValue>)
        ensures
            match r {
                Some(v) => field_of(view_fields(self.extra@), key@) == Some(v.deep_view()),
                None => field_of(view_fields(self.extra@), key@) is None,
            },
    {
        find_field(&self.extra, key)
    }

    /// Whether the envelope carries the given type tag.
    pub fn is_type(&self, ztype: &str) -> (r: bool)
        ensures
            r == (self.ztype@ == ztype@),
    {
        str_eq(self.ztype.as_str(), ztype)
    }
}

impl Clone for ZData {
    /// A clone has the same model as the original.
    fn clone(&self) -> (r: Self)
        ensures
            r.deep_view() == self.deep_view(),
    {
        let b = match &self.b {
            Some(bb) => {
                let out = bb.clone();
                proof {
                    assert forall|j: int| 0 <= j < bb@.len() implies out@[j] == bb@[j] by {
                        assert(cloned::<u8>(bb@[j], out@[j]));
                    }
                    assert(out@ =~= bb@);
                }
                Some(out)
            },
            None => None,
        };
        let shape = match &self.shape {
            Some(sh) => {
                let out = sh.clone();
                proof {
                    assert forall|j: int| 0 <= j < sh@.len() implies out@[j] == sh@[j] by {
                        assert(cloned::<usize>(sh@[j], out@[j]));
                    }
                    assert(out@ =~= sh@);
                }
                Some(out)
            },
            None => None,
        };
        let dtype = match &self.dtype {
            Some(d) => Some(d.clone()),
            None => None,
        };
        let mut extra: Vec<(String, DynValue)> = Vec::new();
        let mut i: usize = 0;
        while i < self.extra.len()
            invariant
                i <= self.extra@.len(),
                extra@.len() == i as int,
                forall|j: int| 0 <= j < i as int
                    ==> #[trigger] extra@[j].0@ == self.extra@[j].0@
                        && crate::value::view_value(extra@[j].1)
                            == crate::value::view_value(self.extra@[j].1),
            decreases self.extra@.len() - i,
        {
            let (k, v) = &self.extra[i];
            extra.push((k.clone(), v.clone()));
            i = i + 1;
        }
        proof {
            crate::value::lemma_view_fields(extra@);
            crate::value::lemma_view_fields(self.extra@);
            assert(view_fields(extra@) =~= view_fields(self.extra@));
        }
        ZData { ztype: self.ztype.clone(), b, dtype, shape, extra }
    }
}

/// Conversion between an application type and the envelope.
///
/// Implementors state their behaviour in the three spec functions; the
/// executable methods are then held to them. `is_available` allows an
/// adapter whose backing support is compiled out to degrade gracefully:
/// it reports false, and conversion fails with a descriptive error
/// instead of panicking.
pub trait ZDataConversion: Sized + DeepView {
    /// The type tag of this adapter.
    spec fn spec_ztype() -> Seq<char>;

    /// Whether the adapter can convert in this build.
    spec fn spec_available() -> bool;

    /// What the value encodes to, or nothing when encoding fails.
    spec fn spec_to(&self) -> Option<ZDataModel>;

    /// What the envelope decodes to, or nothing when decoding fails.
    spec fn spec_from(z: ZDataModel) -> Option<Self::V>;

    /// The type identifier for this adapter.
    fn ztype() -> (r: &'static str)
        ensures
            r@ == Self::spec_ztype(),
    ;

    /// Whether this type can be converted in the current build.
    fn is_available() -> (r: bool)
        ensures
            r == Self::spec_available(),
    ;

    /// Encodes this value into an envelope.
    fn to_zdata(&self) -> (r: Result<ZData, VmpError>)
        ensures
            match r {
                Ok(z) => self.spec_to() == Some(z.deep_view()),
                Err(_) => self.spec_to() is None,
            },
    ;

    /// Decodes an envelope into a value of this type.
    fn from_zdata(zdata: &ZData) -> (r: Result<Self, VmpError>)
        ensures
            match r {
                Ok(v) => Self::spec_from(zdata.deep_view()) == Some(v.deep_view()),
                Err(_) => Self::spec_from(zdata.deep_view()) is None,
            },
    ;
}

/// A passthrough holder for an envelope whose tag no adapter knows:
/// the envelope is preserved unchanged instead of failing.
#[derive(Debug, PartialEq)]
pub struct UnknownType {
    pub zdata: ZData,
}

impl UnknownType {
    /// Wraps an unrecognised envelope.
    pub fn new(zdata: ZData) -> (r: Self)
        ensures
            r.zdata == zdata,
    {
        UnknownType { zdata }
    }

    /// The type tag of the wrapped envelope.
    pub fn ztype<'a>(&'a self) -> (r: &'a str)
        ensures
            r@ == self.zdata.ztype@,
    {
        self.zdata.ztype.as_str()
    }

    /// The wrapped envelope.
    pub fn as_zdata<'a>(&'a self) -> (r: &'a ZData)
        ensures
            r == &self.zdata,
    {
        &self.zdata
    }
}

/// Encodes a value through its adapter, failing with a descriptive
/// type-conversion error when the adapter is unavailable in this build.
pub fn encode_to_zdata<T: ZDataConversion>(value: &T) -> (r: Result<ZData, VmpError>)
    ensures
        match r {
            Ok(z) => T::spec_available() && value.spec_to() == Some(z.deep_view()),
            Err(e) => !T::spec_available() && e is TypeConversion
                || T::spec_available() && value.spec_to() is None,
        },
{
    if !T::is_available() {
        let mut m = T::ztype().to_owned();
        m.append(" is not available in this environment; enable the backing support");
        return Err(VmpError::TypeConversion(m));
    }
    value.to_zdata()
}

/// Decodes an envelope through an adapter, failing with a descriptive
/// type-conversion error when the adapter is unavailable in this build.
pub fn decode_from_zdata<T: ZDataConversion>(zdata: &ZData) -> (r: Result<T, VmpError>)
    ensures
        match r {
            Ok(v) => T::spec_available()
                && T::spec_from(zdata.deep_view()) == Some(v.deep_view()),
            Err(e) => !T::spec_available() && e is TypeConversion
                || T::spec_available() && T::spec_from(zdata.deep_view()) is None,
        },
{
    if !T::is_available() {
        let mut m = T::ztype().to_owned();
        m.append(" is not available in this environment; enable the backing support");
        return Err(VmpError::TypeConversion(m));
    }
    T::from_zdata(zdata)
}

} // verus!
