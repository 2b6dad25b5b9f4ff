//! Built-in adapters for common payload types.
//!
//! The adapters here work on the payload's plain data: an array is its
//! raw element bytes plus a shape, an image its encoded bytes plus a
//! format name. Turning those into a host library's array or image
//! values is the host's work, outside this crate; the envelope rules
//! (tag, metadata, and the byte-length accounting) are checked here.

use vstd::prelude::*;

use crate::error::VmpError;
use crate::value::{ValModel, view_fields, field_of};
use crate::zdata::{ZData, ZDataConversion, ZDataModel};

verus! {

broadcast use vstd::std_specs::vec::group_vec_axioms, vstd::seq::group_seq_axioms;

/// The number of elements a shape describes.
pub open spec fn shape_product(s: Seq<usize>) -> int
    decreases s.len(),
{
    if s.len() == 0 {
        1
    } else {
        shape_product(s.drop_last()) * s.last()
    }
}

/// A shape with a zero dimension describes no elements.
proof fn lemma_shape_product_zero(s: Seq<usize>, i: int)
    requires
        0 <= i < s.len(),
        s[i] == 0,
    ensures
        shape_product(s) == 0,
    decreases s.len(),
{
    if s.len() > 0 {
        if i == s.len() - 1 {
            assert(s.last() == s[i]);
        } else {
            lemma_shape_product_zero(s.drop_last(), i);
        }
    }
}

/// With no zero dimension, the element count only grows along the
/// shape and never drops below one.
proof fn lemma_shape_product_mono(s: Seq<usize>, i: int)
    requires
        forall|j: int| 0 <= j < s.len() ==> (#[trigger] s[j]) >= 1,
        0 <= i <= s.len(),
    ensures
        shape_product(s) >= shape_product(s.subrange(0, i)) >= 1,
    decreases s.len() - i,
{
    if i == s.len() {
        assert(s.subrange(0, i) =~= s);
        lemma_shape_product_pos(s);
    } else {
        lemma_shape_product_mono(s, i + 1);
        let a = s.subrange(0, i);
        let b = s.subrange(0, i + 1);
        assert(b.drop_last() =~= a);
        assert(b.last() == s[i]);
        lemma_shape_product_pos(a);
        assert(shape_product(b) == shape_product(a) * s[i]);
        assert(shape_product(a) * s[i] >= shape_product(a) * 1) by (nonlinear_arith)
            requires
                shape_product(a) >= 1,
                s[i] >= 1,
        ;
    }
}

/// With no zero dimension, the element count is at least one.
proof fn lemma_shape_product_pos(s: Seq<usize>)
    requires
        forall|j: int| 0 <= j < s.len() ==> (#[trigger] s[j]) >= 1,
    ensures
        shape_product(s) >= 1,
    decreases s.len(),
{
    if s.len() > 0 {
        assert(forall|j: int| 0 <= j < s.drop_last().len()
            ==> #[trigger] s.drop_last()[j] == s[j]);
        lemma_shape_product_pos(s.drop_last());
        assert(shape_product(s) == shape_product(s.drop_last()) * s.last());
        assert(shape_product(s.drop_last()) * s.last() >= 1) by (nonlinear_arith)
            requires
                shape_product(s.drop_last()) >= 1,
                s.last() >= 1,
        ;
    }
}

/// Whether a byte count is exactly four bytes per element of the shape.
fn len_matches_shape(data_len: usize, shape: &Vec<usize>) -> (r: bool)
    ensures
        r == (data_len as int == 4 * shape_product(shape@)),
{
    let ghost m = shape@;
    let mut i: usize = 0;
    while i < shape.len()
        invariant
            i <= m.len(),
            m == shape@,
            forall|j: int| 0 <= j < i as int ==> (#[trigger] m[j]) >= 1,
        decreases m.len() - i,
    {
        if shape[i] == 0 {
            proof {
                lemma_shape_product_zero(m, i as int);
            }
            return data_len == 0;
        }
        i = i + 1;
    }
    let mut p: u128 = 1;
    let mut k: usize = 0;
    while k < shape.len()
        invariant
            k <= m.len(),
            m == shape@,
            forall|j: int| 0 <= j < m.len() ==> (#[trigger] m[j]) >= 1,
            p as int == shape_product(m.subrange(0, k as int)),
            1 <= p <= u64::MAX as u128,
        decreases m.len() - k,
    {
        let d = shape[k];
        proof {
            assert(m.subrange(0, k as int + 1).drop_last() =~= m.subrange(0, k as int));
            assert(m.subrange(0, k as int + 1).last() == m[k as int]);
            assert(p * (d as u128) >= p * 1) by (nonlinear_arith)
                requires
                    p >= 1,
                    d >= 1,
            ;
            assert(p * (d as u128) <= (u64::MAX as u128) * (u64::MAX as u128))
                by (nonlinear_arith)
                requires
                    1 <= p <= u64::MAX as u128,
                    d as u128 <= u64::MAX as u128,
            ;
        }
        p = p * (d as u128);
        k = k + 1;
        if p > u64::MAX as u128 {
            proof {
                lemma_shape_product_mono(m, k as int);
                assert(shape_product(m) >= p as int);
                assert(4 * shape_product(m) > data_len as int);
            }
            return false;
        }
    }
    proof {
        assert(m.subrange(0, m.len() as int) =~= m);
    }
    (data_len as u128) == 4 * p
}

/// Model of a raw array payload.
pub struct NumpyArrayModel {
    pub data: Seq<u8>,
    pub shape: Seq<usize>,
}

/// A numeric array payload in raw form: the element bytes (four bytes
/// per 32-bit float element, little endian) and the shape.
#[derive(Debug, PartialEq)]
pub struct NumpyArray {
    /// The raw element bytes.
    pub data: Vec<u8>,
    /// The array dimensions.
    pub shape: Vec<usize>,
}

impl DeepView for NumpyArray {
    type V = NumpyArrayModel;

    open spec fn deep_view(&self) -> NumpyArrayModel {
        NumpyArrayModel { data: self.data@, shape: self.shape@ }
    }
}

impl NumpyArray {
    /// A new array payload from raw bytes and a shape.
    pub fn new(data: Vec<u8>, shape: Vec<usize>) -> (r: Self)
        ensures
            r.data == data,
            r.shape == shape,
    {
        NumpyArray { data, shape }
    }
}

/// What an array payload encodes to: its envelope, provided the byte
/// count is four bytes per element.
pub open spec fn ndarray_to_model(m: NumpyArrayModel) -> Option<ZDataModel> {
    if m.data.len() == 4 * shape_product(m.shape) {
        Some(ZDataModel {
            ztype: "numpy.ndarray"@,
            b: Some(m.data),
            dtype: Some("float32"@),
            shape: Some(m.shape),
            extra: Seq::empty(),
        })
    } else {
        None
    }
}

/// What an envelope decodes to as an array payload: the tag must be
/// "numpy.ndarray", payload, dtype "float32" and shape must be present,
/// and the byte count must be four bytes per element.
pub open spec fn ndarray_of_model(z: ZDataModel) -> Option<NumpyArrayModel> {
    match (z.b, z.dtype, z.shape) {
        (Some(data), Some(dtype), Some(shape)) => if z.ztype == "numpy.ndarray"@
            && dtype == "float32"@ && data.len() == 4 * shape_product(shape) {
            Some(NumpyArrayModel { data, shape })
        } else {
            None
        },
        _ => None,
    }
}

impl ZDataConversion for NumpyArray {
    open spec fn spec_ztype() -> Seq<char> {
        "numpy.ndarray"@
    }

    open spec fn spec_available() -> bool {
        true
    }

    open spec fn spec_to(&self) -> Option<ZDataModel> {
        ndarray_to_model(self.deep_view())
    }

    open spec fn spec_from(z: ZDataModel) -> Option<NumpyArrayModel> {
        ndarray_of_model(z)
    }

    fn ztype() -> (r: &'static str) {
        "numpy.ndarray"
    }

    fn is_available() -> (r: bool) {
        true
    }

    fn to_zdata(&self) -> (r: Result<ZData, VmpError>) {
        if !len_matches_shape(self.data.len(), &self.shape) {
            return Err(VmpError::TypeConversion(
                "array byte count does not match its shape".to_owned(),
            ));
        }
        let mut data: Vec<u8> = Vec::new();
        data.extend_from_slice(self.data.as_slice());
        proof {
            assert forall|j: int| 0 <= j < self.data@.len()
                implies data@[j] == self.data@[j] by {
                assert(cloned::<u8>(self.data@[j], data@[j]));
            }
            assert(data@ =~= self.data@);
        }
        let mut shape: Vec<usize> = Vec::new();
        shape.extend_from_slice(self.shape.as_slice());
        proof {
            assert forall|j: int| 0 <= j < self.shape@.len()
                implies shape@[j] == self.shape@[j] by {
                assert(cloned::<usize>(self.shape@[j], shape@[j]));
            }
            assert(shape@ =~= self.shape@);
        }
        let z = ZData::new("numpy.ndarray").with_binary(data).with_dtype("float32")
            .with_shape(shape);
        proof {
            crate::value::lemma_view_fields(z.extra@);
            assert(view_fields(z.extra@) =~= Seq::<(Seq<char>, ValModel)>::empty());
        }
        Ok(z)
    }

    fn from_zdata(zdata: &ZData) -> (r: Result<NumpyArray, VmpError>) {
        if !zdata.is_type("numpy.ndarray") {
            return Err(VmpError::TypeConversion(
                "the envelope does not carry a numpy.ndarray tag".to_owned(),
            ));
        }
        let data: Vec<u8> = match &zdata.b {
            Some(bb) => {
                let mut out: Vec<u8> = Vec::new();
                out.extend_from_slice(bb.as_slice());
                proof {
                    assert forall|j: int| 0 <= j < bb@.len() implies out@[j] == bb@[j] by {
                        assert(cloned::<u8>(bb@[j], out@[j]));
                    }
                    assert(out@ =~= bb@);
                }
                out
            },
            None => {
                return Err(VmpError::MissingField(
                    "binary data missing from the envelope".to_owned(),
                ));
            },
        };
        let shape: Vec<usize> = match &zdata.shape {
            Some(sh) => {
                let mut out: Vec<usize> = Vec::new();
                out.extend_from_slice(sh.as_slice());
                proof {
                    assert forall|j: int| 0 <= j < sh@.len() implies out@[j] == sh@[j] by {
                        assert(cloned::<usize>(sh@[j], out@[j]));
                    }
                    assert(out@ =~= sh@);
                }
                out
            },
            None => {
                return Err(VmpError::MissingField(
                    "shape missing from the envelope".to_owned(),
                ));
            },
        };
        match &zdata.dtype {
            Some(d) => {
                if !crate::value::str_eq(d.as_str(), "float32") {
                    return Err(VmpError::TypeConversion(
                        "only the float32 element type is supported".to_owned(),
                    ));
                }
            },
            None => {
                return Err(VmpError::MissingField(
                    "dtype missing from the envelope".to_owned(),
                ));
            },
        }
        if !len_matches_shape(data.len(), &shape) {
            return Err(VmpError::TypeConversion(
                "array byte count does not match its shape".to_owned(),
            ));
        }
        Ok(NumpyArray { data, shape })
    }
}

/// Availability checks and errors for optional payload support.
pub struct TypeConversionFallback;

impl TypeConversionFallback {
    /// Whether array payload support is present in this build. The raw
    /// byte-level adapter is always compiled in.
    pub fn is_ndarray_available() -> (r: bool)
        ensures
            r == true,
    {
        true
    }

    /// Whether image payload support is present in this build. The raw
    /// byte-level adapter is always compiled in.
    pub fn is_image_available() -> (r: bool)
        ensures
            r == true,
    {
        true
    }

    /// The error for a type no adapter covers: with both built-in
    /// adapters present, every unknown tag names a type that was never
    /// registered.
    pub fn missing_type_error(ztype: &str) -> (r: VmpError)
        ensures
            r matches VmpError::TypeNotRegistered(m)
                && m@ == "Type '"@ + ztype@
                    + "' is not available. It may require a feature flag or external dependency."@,
    {
        let mut m = "Type '".to_owned();
        m.append(ztype);
        m.append("' is not available. It may require a feature flag or external dependency.");
        VmpError::TypeNotRegistered(m)
    }
}

} // verus!

verus! {

/// Model of an encoded image payload.
pub struct ImageDataModel {
    pub data: Seq<u8>,
    pub format: Seq<char>,
}

/// An image payload in encoded form: the encoded bytes and the format
/// name. Decoding the bytes into pixels is the host library's work.
#[derive(Debug, PartialEq)]
pub struct ImageData {
    /// The encoded image bytes.
    pub data: Vec<u8>,
    /// The format name: "png", "jpeg" or "webp".
    pub format: String,
}

impl DeepView for ImageData {
    type V = ImageDataModel;

    open spec fn deep_view(&self) -> ImageDataModel {
        ImageDataModel { data: self.data@, format: self.format@ }
    }
}

impl ImageData {
    /// A new image payload from encoded bytes and a format name.
    pub fn new(data: Vec<u8>, format: String) -> (r: Self)
        ensures
            r.data == data,
            r.format == format,
    {
        ImageData { data, format }
    }
}

/// Whether the format name is one the adapter knows.
pub open spec fn known_format(f: Seq<char>) -> bool {
    f == "png"@ || f == "jpeg"@ || f == "webp"@
}

/// What an image payload encodes to: its envelope with the format as an
/// extra field; an unknown format travels as "unknown".
pub open spec fn image_to_model(m: ImageDataModel) -> Option<ZDataModel> {
    Some(ZDataModel {
        ztype: "image"@,
        b: Some(m.data),
        dtype: None,
        shape: None,
        extra: Seq::empty().push((
            "format"@,
            ValModel::Text(if known_format(m.format) { m.format } else { "unknown"@ }),
        )),
    })
}

/// What an envelope decodes to as an image payload: the tag must be
/// "image", the payload must be present, and the format field must name
/// a known format.
pub open spec fn image_of_model(z: ZDataModel) -> Option<ImageDataModel> {
    if z.ztype == "image"@ {
        match z.b {
            Some(data) => match field_of(z.extra, "format"@) {
                Some(ValModel::Text(f)) => if known_format(f) {
                    Some(ImageDataModel { data, format: f })
                } else {
                    None
                },
                _ => None,
            },
            None => None,
        }
    } else {
        None
    }
}

impl ZDataConversion for ImageData {
    open spec fn spec_ztype() -> Seq<char> {
        "image"@
    }

    open spec fn spec_available() -> bool {
        true
    }

    open spec fn spec_to(&self) -> Option<ZDataModel> {
        image_to_model(self.deep_view())
    }

    open spec fn spec_from(z: ZDataModel) -> Option<ImageDataModel> {
        image_of_model(z)
    }

    fn ztype() -> (r: &'static str) {
        "image"
    }

    fn is_available() -> (r: bool) {
        true
    }

    fn to_zdata(&self) -> (r: Result<ZData, VmpError>) {
        let mut data: Vec<u8> = Vec::new();
        data.extend_from_slice(self.data.as_slice());
        proof {
            assert forall|j: int| 0 <= j < self.data@.len()
                implies data@[j] == self.data@[j] by {
                assert(cloned::<u8>(self.data@[j], data@[j]));
            }
            assert(data@ =~= self.data@);
        }
        let known = crate::value::str_eq(self.format.as_str(), "png")
            || crate::value::str_eq(self.format.as_str(), "jpeg")
            || crate::value::str_eq(self.format.as_str(), "webp");
        let fmt: crate::value::DynValue = if known {
            crate::value::DynValue::Text(self.format.clone())
        } else {
            crate::value::DynValue::Text("unknown".to_owned())
        };
        let ghost fmt_model = fmt.deep_view();
        let z = ZData::new("image").with_binary(data).with_field("format", fmt);
        proof {
            crate::value::lemma_view_fields(z.extra@);
            crate::value::lemma_key_index(Seq::<(Seq<char>, ValModel)>::empty(), "format"@);
            assert(view_fields(z.extra@)
                =~= Seq::<(Seq<char>, ValModel)>::empty().push(("format"@, fmt_model)));
        }
        Ok(z)
    }

    fn from_zdata(zdata: &ZData) -> (r: Result<ImageData, VmpError>) {
        if !zdata.is_type("image") {
            return Err(VmpError::TypeConversion(
                "the envelope does not carry an image tag".to_owned(),
            ));
        }
        let data: Vec<u8> = match &zdata.b {
            Some(bb) => {
                let mut out: Vec<u8> = Vec::new();
                out.extend_from_slice(bb.as_slice());
                proof {
                    assert forall|j: int| 0 <= j < bb@.len() implies out@[j] == bb@[j] by {
                        assert(cloned::<u8>(bb@[j], out@[j]));
                    }
                    assert(out@ =~= bb@);
                }
                out
            },
            None => {
                return Err(VmpError::MissingField(
                    "binary data missing from the envelope".to_owned(),
                ));
            },
        };
        let format = match zdata.get_field("format") {
            Some(w) => match w {
                crate::value::DynValue::Text(f) => f.clone(),
                _ => {
                    return Err(VmpError::MissingField(
                        "format missing from the envelope".to_owned(),
                    ));
                },
            },
            None => {
                return Err(VmpError::MissingField(
                    "format missing from the envelope".to_owned(),
                ));
            },
        };
        let known = crate::value::str_eq(format.as_str(), "png")
            || crate::value::str_eq(format.as_str(), "jpeg")
            || crate::value::str_eq(format.as_str(), "webp");
        if !known {
            return Err(VmpError::TypeConversion(
                "the image format is not supported".to_owned(),
            ));
        }
        Ok(ImageData { data, format })
    }
}

} // verus!
