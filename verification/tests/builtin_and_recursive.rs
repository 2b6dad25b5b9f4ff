use vuer_rpc::builtin_types::{ImageData, NumpyArray, TypeConversionFallback};
use vuer_rpc::deserializer::{decode_value_recursive, DeserializeOptions};
use vuer_rpc::error::VmpError;
use vuer_rpc::serializer::{encode_value_recursive, SerializeOptions};
use vuer_rpc::type_registry::{TypeCodec, TypeRegistry};
use vuer_rpc::value::DynValue;
use vuer_rpc::zdata::{encode_to_zdata, ZData, ZDataConversion};
use image::{DynamicImage, ImageBuffer, ImageFormat, Rgb};

fn obj(pairs: Vec<(&str, DynValue)>) -> DynValue {
    DynValue::Object(pairs.into_iter().map(|(k, v)| (k.to_string(), v)).collect())
}

fn text(s: &str) -> DynValue {
    DynValue::Text(s.to_string())
}

fn f32s_to_bytes(data: &[f32]) -> Vec<u8> {
    data.iter().flat_map(|f| f.to_le_bytes()).collect()
}

#[test]
fn test_numpy_array_conversion() {
    let data = vec![1.0f32, 2.0, 3.0, 4.0, 5.0, 6.0];
    let numpy_array = NumpyArray::new(f32s_to_bytes(&data), vec![2, 3]);

    let zdata = numpy_array.to_zdata().unwrap();
    assert_eq!(zdata.ztype, "numpy.ndarray");
    assert_eq!(zdata.dtype, Some("float32".to_string()));
    assert_eq!(zdata.shape, Some(vec![2, 3]));

    let restored = NumpyArray::from_zdata(&zdata).unwrap();
    assert_eq!(restored.shape, &[2, 3]);
    let floats: Vec<f32> = restored
        .data
        .chunks_exact(4)
        .map(|c| f32::from_le_bytes([c[0], c[1], c[2], c[3]]))
        .collect();
    assert_eq!(floats, data);
}

#[test]
fn test_numpy_array_rejects_mismatched_shape() {
    let arr = NumpyArray::new(vec![0; 8], vec![3]);
    assert!(matches!(
        arr.to_zdata(),
        Err(VmpError::TypeConversion(_))
    ));
    let z = ZData::new("numpy.ndarray")
        .with_binary(vec![0; 8])
        .with_dtype("float64")
        .with_shape(vec![2]);
    assert!(matches!(
        NumpyArray::from_zdata(&z),
        Err(VmpError::TypeConversion(_))
    ));
    let z = ZData::new("numpy.ndarray").with_dtype("float32");
    assert!(matches!(
        NumpyArray::from_zdata(&z),
        Err(VmpError::MissingField(_))
    ));
}

#[test]
fn test_image_conversion() {
    let img = DynamicImage::ImageRgb8(ImageBuffer::from_fn(100, 100, |x, y| {
        Rgb([((x + y) % 256) as u8, 0, 0])
    }));
    let mut bytes = Vec::new();
    let mut cursor = std::io::Cursor::new(&mut bytes);
    img.write_to(&mut cursor, ImageFormat::Png).unwrap();

    let image_data = ImageData::new(bytes, "png".to_string());
    let zdata = image_data.to_zdata().unwrap();

    assert_eq!(zdata.ztype, "image");
    assert!(zdata.b.is_some());
    assert_eq!(zdata.get_field("format"), Some(&text("png")));

    let restored = ImageData::from_zdata(&zdata).unwrap();
    assert_eq!(restored.format, "png");
    let decoded = image::load_from_memory_with_format(&restored.data, ImageFormat::Png).unwrap();
    assert_eq!(decoded.width(), 100);
}

#[test]
fn test_type_conversion_fallback() {
    assert!(TypeConversionFallback::is_ndarray_available());
    assert!(TypeConversionFallback::is_image_available());
    match TypeConversionFallback::missing_type_error("torch.Tensor") {
        VmpError::TypeNotRegistered(m) => {
            assert!(m.contains("torch.Tensor"));
        }
        _ => panic!("expected a type-not-registered error"),
    }
}

/// The registry adapter for array payloads used by the scenario below:
/// a value shaped `{b, shape, dtype}` becomes its envelope and back.
struct NdarrayValueCodec;

impl TypeCodec for NdarrayValueCodec {
    fn encode(&self, value: &DynValue) -> Result<ZData, VmpError> {
        let fields = match value {
            DynValue::Object(fields) => fields,
            _ => return Err(VmpError::TypeConversion("not an array value".to_string())),
        };
        let mut b: Option<Vec<u8>> = None;
        let mut shape: Option<Vec<usize>> = None;
        for (k, v) in fields {
            match (k.as_str(), v) {
                ("b", DynValue::Bin(bytes)) => b = Some(bytes.clone()),
                ("shape", DynValue::List(items)) => {
                    let mut dims = Vec::new();
                    for it in items {
                        match it {
                            DynValue::Int(d) if *d >= 0 => dims.push(*d as usize),
                            _ => return Err(VmpError::TypeConversion("bad shape".to_string())),
                        }
                    }
                    shape = Some(dims);
                }
                _ => {}
            }
        }
        match (b, shape) {
            (Some(b), Some(shape)) => NumpyArray::new(b, shape).to_zdata(),
            _ => Err(VmpError::TypeConversion("missing array parts".to_string())),
        }
    }

    fn decode(&self, zdata: &ZData) -> Result<DynValue, VmpError> {
        let arr = NumpyArray::from_zdata(zdata)?;
        let shape = arr
            .shape
            .iter()
            .map(|d| DynValue::Int(*d as i64))
            .collect::<Vec<_>>();
        Ok(DynValue::Object(vec![
            ("b".to_string(), DynValue::Bin(arr.data)),
            ("shape".to_string(), DynValue::List(shape)),
            ("dtype".to_string(), text("float32")),
        ]))
    }

    fn has_detector(&self) -> bool {
        true
    }

    fn matches(&self, value: &DynValue) -> bool {
        match value {
            DynValue::Object(fields) => fields.iter().any(|(k, v)| {
                k == "dtype" && v == &text("float32")
            }),
            _ => false,
        }
    }
}

#[test]
fn test_numpy_end_to_end_through_registry() {
    let mut registry: TypeRegistry<NdarrayValueCodec> = TypeRegistry::new();
    registry.register("numpy.ndarray", NdarrayValueCodec);

    let data = vec![1.5f32, -2.0, 3.0, 4.25, 5.0, 6.0];
    let bytes = f32s_to_bytes(&data);
    assert_eq!(bytes.len(), 2 * 3 * 4);
    let array_value = obj(vec![
        ("b", DynValue::Bin(bytes.clone())),
        (
            "shape",
            DynValue::List(vec![DynValue::Int(2), DynValue::Int(3)]),
        ),
        ("dtype", text("float32")),
    ]);

    // the detector recognises the value and the envelope carries the
    // byte-accounted payload
    let zdata = registry.try_encode(&array_value).unwrap();
    assert_eq!(zdata.ztype, "numpy.ndarray");
    assert_eq!(zdata.dtype, Some("float32".to_string()));
    assert_eq!(zdata.shape, Some(vec![2, 3]));
    assert_eq!(zdata.b.as_ref().unwrap().len(), 2 * 3 * 4);

    // decoding reproduces the six values in order
    let decoded = registry.decode(&zdata).unwrap();
    match &decoded {
        DynValue::Object(fields) => match &fields[0] {
            (k, DynValue::Bin(b)) => {
                assert_eq!(k, "b");
                let floats: Vec<f32> = b
                    .chunks_exact(4)
                    .map(|c| f32::from_le_bytes([c[0], c[1], c[2], c[3]]))
                    .collect();
                assert_eq!(floats, data);
            }
            _ => panic!("expected the byte payload first"),
        },
        _ => panic!("expected an array value"),
    }
}

#[test]
fn test_encode_value_recursive() {
    let value = obj(vec![(
        "nested",
        obj(vec![
            (
                "array",
                DynValue::List(vec![DynValue::Int(1), DynValue::Int(2), DynValue::Int(3)]),
            ),
            ("object", obj(vec![("key", text("value"))])),
        ]),
    )]);

    let options = SerializeOptions::default();
    let registry: TypeRegistry<NdarrayValueCodec> = TypeRegistry::new();
    let encoded = encode_value_recursive(&value, &options, &registry).unwrap();
    assert_eq!(encoded, value);
}

#[test]
fn test_decode_value_recursive() {
    let value = obj(vec![(
        "nested",
        obj(vec![
            (
                "array",
                DynValue::List(vec![DynValue::Int(1), DynValue::Int(2), DynValue::Int(3)]),
            ),
            ("object", obj(vec![("key", text("value"))])),
        ]),
    )]);

    let options = DeserializeOptions::default();
    let registry: TypeRegistry<NdarrayValueCodec> = TypeRegistry::new();
    let decoded = decode_value_recursive(&value, &options, &registry).unwrap();
    assert_eq!(decoded, value);
}

#[test]
fn test_encode_value_recursive_rejects_null_and_rewrites() {
    let options = SerializeOptions::default();
    let mut registry: TypeRegistry<NdarrayValueCodec> = TypeRegistry::new();
    registry.register("numpy.ndarray", NdarrayValueCodec);

    // null under the default options is an error
    let holds_null = obj(vec![("x", DynValue::Null)]);
    assert!(matches!(
        encode_value_recursive(&holds_null, &options, &registry),
        Err(VmpError::Serialization(_))
    ));

    // a nested array value is replaced by its envelope record
    let bytes = f32s_to_bytes(&[1.0f32]);
    let nested = obj(vec![(
        "payload",
        obj(vec![
            ("b", DynValue::Bin(bytes)),
            ("shape", DynValue::List(vec![DynValue::Int(1)])),
            ("dtype", text("float32")),
        ]),
    )]);
    let rewritten = encode_value_recursive(&nested, &options, &registry).unwrap();
    match &rewritten {
        DynValue::Object(fields) => match &fields[0].1 {
            DynValue::Object(inner) => {
                assert_eq!(inner[0].0, "ztype");
                assert_eq!(inner[0].1, text("numpy.ndarray"));
            }
            _ => panic!("expected the envelope record"),
        },
        _ => panic!("expected a record"),
    }

    // decoding the rewritten tree brings the array value back
    let dopts = DeserializeOptions::default();
    let decoded = decode_value_recursive(&rewritten, &dopts, &registry).unwrap();
    match &decoded {
        DynValue::Object(fields) => match &fields[0].1 {
            DynValue::Object(inner) => assert_eq!(inner[0].0, "b"),
            _ => panic!("expected the array value back"),
        },
        _ => panic!("expected a record"),
    }

    // an unknown envelope tag passes through unchanged
    let unknown = obj(vec![("ztype", text("alien.Type")), ("p", DynValue::Int(1))]);
    let passed = decode_value_recursive(&unknown, &dopts, &registry).unwrap();
    assert_eq!(passed, unknown);
}

#[test]
fn test_encode_to_zdata_helper() {
    let arr = NumpyArray::new(f32s_to_bytes(&[2.0f32]), vec![1]);
    let z = encode_to_zdata(&arr).unwrap();
    assert_eq!(z.ztype, "numpy.ndarray");
    let back: NumpyArray = vuer_rpc::zdata::decode_from_zdata(&z).unwrap();
    assert_eq!(back, arr);
}
