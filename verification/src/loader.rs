//! GraphDECO PLY files: the header grammar, the binary vertex layout and the
//! errors a file can be refused with.
use vstd::prelude::*;
use vstd::utf8::*;

use crate::text::{
    chars_are, collect_chars, parse_usize, parse_usize_spec, split_lines, split_lines_of,
    split_whitespace, split_whitespace_of, string_from_chars, views_of,
};

verus! {

broadcast use vstd::utf8::encode_utf8_decode_utf8;

/// How the vertex rows after the header are stored.
#[derive(Clone, Copy, Debug, PartialEq, Eq, Structural)]
pub enum PlyFormat {
    Ascii,
    BinaryLittleEndian,
}

/// The scalar types a vertex property may have.
#[derive(Clone, Copy, Debug, PartialEq, Eq, Structural)]
pub enum ScalarType {
    I8,
    U8,
    I16,
    U16,
    I32,
    U32,
    F32,
    F64,
}

impl ScalarType {
    /// The scalar type a PLY type name denotes, both the classic and the
    /// sized spelling.
    pub open spec fn from_name(name: Seq<char>) -> Option<ScalarType> {
        if name == "char"@ || name == "int8"@ {
            Some(ScalarType::I8)
        } else if name == "uchar"@ || name == "uint8"@ {
            Some(ScalarType::U8)
        } else if name == "short"@ || name == "int16"@ {
            Some(ScalarType::I16)
        } else if name == "ushort"@ || name == "uint16"@ {
            Some(ScalarType::U16)
        } else if name == "int"@ || name == "int32"@ {
            Some(ScalarType::I32)
        } else if name == "uint"@ || name == "uint32"@ {
            Some(ScalarType::U32)
        } else if name == "float"@ || name == "float32"@ {
            Some(ScalarType::F32)
        } else if name == "double"@ || name == "float64"@ {
            Some(ScalarType::F64)
        } else {
            None
        }
    }

    /// The scalar type named by the characters `name`.
    pub fn from_chars(name: &[char]) -> (r: Option<ScalarType>)
        ensures
            r == Self::from_name(name@),
    {
        if chars_are(name, "char") || chars_are(name, "int8") {
            Some(ScalarType::I8)
        } else if chars_are(name, "uchar") || chars_are(name, "uint8") {
            Some(ScalarType::U8)
        } else if chars_are(name, "short") || chars_are(name, "int16") {
            Some(ScalarType::I16)
        } else if chars_are(name, "ushort") || chars_are(name, "uint16") {
            Some(ScalarType::U16)
        } else if chars_are(name, "int") || chars_are(name, "int32") {
            Some(ScalarType::I32)
        } else if chars_are(name, "uint") || chars_are(name, "uint32") {
            Some(ScalarType::U32)
        } else if chars_are(name, "float") || chars_are(name, "float32") {
            Some(ScalarType::F32)
        } else if chars_are(name, "double") || chars_are(name, "float64") {
            Some(ScalarType::F64)
        } else {
            None
        }
    }

    /// The scalar type named `value`.
    pub fn parse(value: &str) -> (r: Option<ScalarType>)
        ensures
            r == Self::from_name(value@),
    {
        let chars = collect_chars(value);
        Self::from_chars(chars.as_slice())
    }

    /// How many bytes one value of this type takes in a binary file.
    pub open spec fn size(self) -> nat {
        match self {
            ScalarType::I8 | ScalarType::U8 => 1,
            ScalarType::I16 | ScalarType::U16 => 2,
            ScalarType::I32 | ScalarType::U32 | ScalarType::F32 => 4,
            ScalarType::F64 => 8,
        }
    }

    /// The size of one value of this type, in bytes.
    pub fn byte_size(self) -> (r: usize)
        ensures
            r == self.size(),
    {
        match self {
            ScalarType::I8 | ScalarType::U8 => 1,
            ScalarType::I16 | ScalarType::U16 => 2,
            ScalarType::I32 | ScalarType::U32 | ScalarType::F32 => 4,
            ScalarType::F64 => 8,
        }
    }
}

/// Law: the PLY scalar type names. Each classic name and its sized
/// spelling name the same type; the sized spelling says its width and
/// signedness (`int`/`uint`, `float`); no other name is a type.
pub proof fn lemma_scalar_type_names(name: Seq<char>)
    ensures
        ScalarType::from_name("char"@) == Some(ScalarType::I8),
        ScalarType::from_name("int8"@) == Some(ScalarType::I8),
        ScalarType::from_name("uchar"@) == Some(ScalarType::U8),
        ScalarType::from_name("uint8"@) == Some(ScalarType::U8),
        ScalarType::from_name("short"@) == Some(ScalarType::I16),
        ScalarType::from_name("int16"@) == Some(ScalarType::I16),
        ScalarType::from_name("ushort"@) == Some(ScalarType::U16),
        ScalarType::from_name("uint16"@) == Some(ScalarType::U16),
        ScalarType::from_name("int"@) == Some(ScalarType::I32),
        ScalarType::from_name("int32"@) == Some(ScalarType::I32),
        ScalarType::from_name("uint"@) == Some(ScalarType::U32),
        ScalarType::from_name("uint32"@) == Some(ScalarType::U32),
        ScalarType::from_name("float"@) == Some(ScalarType::F32),
        ScalarType::from_name("float32"@) == Some(ScalarType::F32),
        ScalarType::from_name("double"@) == Some(ScalarType::F64),
        ScalarType::from_name("float64"@) == Some(ScalarType::F64),
        ScalarType::I8.size() == 1 && ScalarType::U8.size() == 1,
        ScalarType::I16.size() == 2 && ScalarType::U16.size() == 2,
        ScalarType::I32.size() == 4 && ScalarType::U32.size() == 4 && ScalarType::F32.size() == 4,
        ScalarType::F64.size() == 8,
        ScalarType::from_name(name) is Some ==> name == "char"@ || name == "int8"@ || name == "uchar"@ || name
            == "uint8"@ || name == "short"@ || name == "int16"@ || name == "ushort"@ || name == "uint16"@ || name
            == "int"@ || name == "int32"@ || name == "uint"@ || name == "uint32"@ || name == "float"@ || name
            == "float32"@ || name == "double"@ || name == "float64"@,
{
    reveal_strlit("char");
    reveal_strlit("int8");
    reveal_strlit("uchar");
    reveal_strlit("uint8");
    reveal_strlit("short");
    reveal_strlit("int16");
    reveal_strlit("ushort");
    reveal_strlit("uint16");
    reveal_strlit("int");
    reveal_strlit("int32");
    reveal_strlit("uint");
    reveal_strlit("uint32");
    reveal_strlit("float");
    reveal_strlit("float32");
    reveal_strlit("double");
    reveal_strlit("float64");
    assert("char"@.len() == 4);
    assert("int8"@.len() == 4);
    assert("uchar"@.len() == 5);
    assert("uint8"@.len() == 5);
    assert("short"@.len() == 5);
    assert("int16"@.len() == 5);
    assert("ushort"@.len() == 6);
    assert("uint16"@.len() == 6);
    assert("int"@.len() == 3);
    assert("int32"@.len() == 5);
    assert("uint"@.len() == 4);
    assert("uint32"@.len() == 6);
    assert("float"@.len() == 5);
    assert("float32"@.len() == 7);
    assert("double"@.len() == 6);
    assert("float64"@.len() == 7);
    assert("char"@ =~= seq!['c', 'h', 'a', 'r']);
    assert("int8"@ =~= seq!['i', 'n', 't', '8']);
    assert("uchar"@ =~= seq!['u', 'c', 'h', 'a', 'r']);
    assert("uint8"@ =~= seq!['u', 'i', 'n', 't', '8']);
    assert("short"@ =~= seq!['s', 'h', 'o', 'r', 't']);
    assert("int16"@ =~= seq!['i', 'n', 't', '1', '6']);
    assert("ushort"@ =~= seq!['u', 's', 'h', 'o', 'r', 't']);
    assert("uint16"@ =~= seq!['u', 'i', 'n', 't', '1', '6']);
    assert("int"@ =~= seq!['i', 'n', 't']);
    assert("int32"@ =~= seq!['i', 'n', 't', '3', '2']);
    assert("uint"@ =~= seq!['u', 'i', 'n', 't']);
    assert("uint32"@ =~= seq!['u', 'i', 'n', 't', '3', '2']);
    assert("float"@ =~= seq!['f', 'l', 'o', 'a', 't']);
    assert("float32"@ =~= seq!['f', 'l', 'o', 'a', 't', '3', '2']);
    assert("double"@ =~= seq!['d', 'o', 'u', 'b', 'l', 'e']);
    assert("float64"@ =~= seq!['f', 'l', 'o', 'a', 't', '6', '4']);
}

/// Law: the properties every splat needs, in the order they are checked:
/// position `x y z`, DC color `f_dc_0..2`, `opacity`, `scale_0..2` and
/// rotation `rot_0..3`.
pub proof fn lemma_required_properties()
    ensures
        required_property_names() == seq![
            "x"@,
            "y"@,
            "z"@,
            "f_dc_0"@,
            "f_dc_1"@,
            "f_dc_2"@,
            "opacity"@,
            "scale_0"@,
            "scale_1"@,
            "scale_2"@,
            "rot_0"@,
            "rot_1"@,
            "rot_2"@,
            "rot_3"@,
        ],
{
}

/// One vertex property declared in the header.
#[derive(Clone, Debug)]
pub struct Property {
    pub name: String,
    pub scalar_type: ScalarType,
}

/// A vertex property as the contracts see it.
pub struct PropertyView {
    pub name: Seq<char>,
    pub scalar_type: ScalarType,
}

impl View for Property {
    type V = PropertyView;

    open spec fn view(&self) -> PropertyView {
        PropertyView { name: self.name@, scalar_type: self.scalar_type }
    }
}

/// The views of a list of properties.
pub open spec fn property_views(p: Seq<Property>) -> Seq<PropertyView> {
    p.map_values(|q: Property| q@)
}

/// What the header says about the vertex rows that follow it.
#[derive(Clone, Debug)]
pub struct PlyHeader {
    pub format: PlyFormat,
    pub vertex_count: usize,
    pub vertex_properties: Vec<Property>,
    /// Offset of the first byte after the header and its line breaks.
    pub data_start: usize,
}

/// A header as the contracts see it.
pub struct HeaderView {
    pub format: PlyFormat,
    pub vertex_count: usize,
    pub vertex_properties: Seq<PropertyView>,
    pub data_start: usize,
}

impl View for PlyHeader {
    type V = HeaderView;

    open spec fn view(&self) -> HeaderView {
        HeaderView {
            format: self.format,
            vertex_count: self.vertex_count,
            vertex_properties: property_views(self.vertex_properties@),
            data_start: self.data_start,
        }
    }
}

/// Why a PLY file was refused.
#[derive(Clone, Debug)]
pub enum LoadError {
    /// A property every splat needs is not declared for the vertex element.
    MissingProperty(String),
    /// The format line names a storage other than ASCII or binary little endian.
    UnsupportedFormat(String),
    /// No `element vertex` line.
    MissingVertexElement,
    /// The byte string `end_header` does not occur.
    MissingEndHeader,
    /// The bytes before `end_header` are not UTF-8.
    HeaderNotUtf8,
    /// The count on the `element vertex` line is not a `usize`.
    InvalidVertexCount,
    /// A vertex property has a type no PLY scalar type is named by.
    UnsupportedPropertyType(String),
    /// A vertex property is a list.
    ListProperty,
    /// No `format` line with three words.
    MissingFormatLine,
    /// The binary rows end before the header's vertex count is reached.
    TruncatedBinaryData,
    /// An ASCII vertex line is not UTF-8.
    UnreadableAsciiLine,
}

/// A refusal as the contracts see it.
pub enum LoadFailure {
    MissingProperty(Seq<char>),
    UnsupportedFormat(Seq<char>),
    MissingVertexElement,
    MissingEndHeader,
    HeaderNotUtf8,
    InvalidVertexCount,
    UnsupportedPropertyType(Seq<char>),
    ListProperty,
    MissingFormatLine,
    TruncatedBinaryData,
    UnreadableAsciiLine,
}

impl View for LoadError {
    type V = LoadFailure;

    open spec fn view(&self) -> LoadFailure {
        match self {
            LoadError::MissingProperty(s) => LoadFailure::MissingProperty(s@),
            LoadError::UnsupportedFormat(s) => LoadFailure::UnsupportedFormat(s@),
            LoadError::MissingVertexElement => LoadFailure::MissingVertexElement,
            LoadError::MissingEndHeader => LoadFailure::MissingEndHeader,
            LoadError::HeaderNotUtf8 => LoadFailure::HeaderNotUtf8,
            LoadError::InvalidVertexCount => LoadFailure::InvalidVertexCount,
            LoadError::UnsupportedPropertyType(s) => LoadFailure::UnsupportedPropertyType(s@),
            LoadError::ListProperty => LoadFailure::ListProperty,
            LoadError::MissingFormatLine => LoadFailure::MissingFormatLine,
            LoadError::TruncatedBinaryData => LoadFailure::TruncatedBinaryData,
            LoadError::UnreadableAsciiLine => LoadFailure::UnreadableAsciiLine,
        }
    }
}

/// The message a refusal is reported with.
pub open spec fn failure_message(f: LoadFailure) -> Seq<char> {
    match f {
        LoadFailure::MissingProperty(s) => "missing required PLY property `"@ + s + "`"@,
        LoadFailure::UnsupportedFormat(s) => "unsupported PLY format `"@ + s + "`"@,
        LoadFailure::MissingVertexElement => "PLY file does not contain a vertex element"@,
        LoadFailure::MissingEndHeader => "PLY header is missing end_header"@,
        LoadFailure::HeaderNotUtf8 => "PLY header is not valid UTF-8"@,
        LoadFailure::InvalidVertexCount => "invalid vertex count"@,
        LoadFailure::UnsupportedPropertyType(s) => "unsupported vertex property type `"@ + s
            + "`"@,
        LoadFailure::ListProperty => "list properties on vertex elements are not supported"@,
        LoadFailure::MissingFormatLine => "PLY header is missing format line"@,
        LoadFailure::TruncatedBinaryData => "binary PLY ended unexpectedly while reading vertex data"@,
        LoadFailure::UnreadableAsciiLine => "failed to read ASCII PLY vertex line"@,
    }
}

impl LoadError {
    /// The message this refusal is reported with.
    pub fn message(&self) -> (r: String)
        ensures
            r@ == failure_message(self@),
    {
        match self {
            LoadError::MissingProperty(s) => {
                let mut m = String::from_str("missing required PLY property `");
                m.append(s.as_str());
                m.append("`");
                m
            },
            LoadError::UnsupportedFormat(s) => {
                let mut m = String::from_str("unsupported PLY format `");
                m.append(s.as_str());
                m.append("`");
                m
            },
            LoadError::MissingVertexElement => String::from_str(
                "PLY file does not contain a vertex element",
            ),
            LoadError::MissingEndHeader => String::from_str("PLY header is missing end_header"),
            LoadError::HeaderNotUtf8 => String::from_str("PLY header is not valid UTF-8"),
            LoadError::InvalidVertexCount => String::from_str("invalid vertex count"),
            LoadError::UnsupportedPropertyType(s) => {
                let mut m = String::from_str("unsupported vertex property type `");
                m.append(s.as_str());
                m.append("`");
                m
            },
            LoadError::ListProperty => String::from_str(
                "list properties on vertex elements are not supported",
            ),
            LoadError::MissingFormatLine => String::from_str("PLY header is missing format line"),
            LoadError::TruncatedBinaryData => String::from_str(
                "binary PLY ended unexpectedly while reading vertex data",
            ),
            LoadError::UnreadableAsciiLine => String::from_str(
                "failed to read ASCII PLY vertex line",
            ),
        }
    }
}


/// The bytes of `end_header`.
pub open spec fn end_header_bytes() -> Seq<u8> {
    seq![101u8, 110u8, 100u8, 95u8, 104u8, 101u8, 97u8, 100u8, 101u8, 114u8]
}

/// `end_header` starts at offset `i` of `b`.
pub open spec fn marker_at(b: Seq<u8>, i: int) -> bool {
    0 <= i && i + 10 <= b.len() && b.subrange(i, i + 10) == end_header_bytes()
}

/// The first offset at or after `i` where `end_header` starts.
pub open spec fn marker_search(b: Seq<u8>, i: int) -> Option<int>
    decreases b.len() - i,
{
    if i < 0 || i + 10 > b.len() {
        None
    } else if marker_at(b, i) {
        Some(i)
    } else {
        marker_search(b, i + 1)
    }
}

/// The first offset at or after `i` that is not a carriage return or line feed.
pub open spec fn skip_line_breaks(b: Seq<u8>, i: int) -> int
    decreases b.len() - i,
{
    if 0 <= i < b.len() && (b[i] == 13 || b[i] == 10) {
        skip_line_breaks(b, i + 1)
    } else {
        i
    }
}

/// What the header lines read so far have declared.
pub struct HeaderScan {
    pub format: Option<PlyFormat>,
    pub vertex_count: Option<usize>,
    pub properties: Seq<PropertyView>,
    /// The last `element` line was `element vertex ...`.
    pub in_vertex: bool,
}

/// The state before any header line.
pub open spec fn empty_scan() -> HeaderScan {
    HeaderScan { format: None, vertex_count: None, properties: Seq::empty(), in_vertex: false }
}

/// The effect of one header line, given as its words.
pub open spec fn header_line_step(st: HeaderScan, words: Seq<Seq<char>>) -> Result<
    HeaderScan,
    LoadFailure,
> {
    if words.len() == 1 && words[0] == "ply"@ {
        Ok(st)
    } else if words.len() == 3 && words[0] == "format"@ {
        if words[1] == "ascii"@ {
            Ok(HeaderScan { format: Some(PlyFormat::Ascii), ..st })
        } else if words[1] == "binary_little_endian"@ {
            Ok(HeaderScan { format: Some(PlyFormat::BinaryLittleEndian), ..st })
        } else {
            Err(LoadFailure::UnsupportedFormat(words[1]))
        }
    } else if words.len() == 3 && words[0] == "element"@ {
        if words[1] == "vertex"@ {
            match parse_usize_spec(words[2]) {
                Some(n) => Ok(HeaderScan { vertex_count: Some(n), in_vertex: true, ..st }),
                None => Err(LoadFailure::InvalidVertexCount),
            }
        } else {
            Ok(HeaderScan { in_vertex: false, ..st })
        }
    } else if words.len() == 3 && words[0] == "property"@ && st.in_vertex {
        match ScalarType::from_name(words[1]) {
            Some(t) => Ok(
                HeaderScan {
                    properties: st.properties.push(PropertyView { name: words[2], scalar_type: t }),
                    ..st
                },
            ),
            None => Err(LoadFailure::UnsupportedPropertyType(words[1])),
        }
    } else if words.len() >= 2 && words[0] == "property"@ && words[1] == "list"@ && st.in_vertex {
        Err(LoadFailure::ListProperty)
    } else {
        Ok(st)
    }
}

/// The effect of a sequence of header lines, in order; the first refusal wins.
pub open spec fn scan_header_lines(lines: Seq<Seq<char>>) -> Result<HeaderScan, LoadFailure>
    decreases lines.len(),
{
    if lines.len() == 0 {
        Ok(empty_scan())
    } else {
        match scan_header_lines(lines.drop_last()) {
            Ok(st) => header_line_step(st, split_whitespace(lines.last())),
            Err(e) => Err(e),
        }
    }
}

/// The properties every splat needs, in the order they are checked.
pub open spec fn required_property_names() -> Seq<Seq<char>> {
    seq![
        "x"@,
        "y"@,
        "z"@,
        "f_dc_0"@,
        "f_dc_1"@,
        "f_dc_2"@,
        "opacity"@,
        "scale_0"@,
        "scale_1"@,
        "scale_2"@,
        "rot_0"@,
        "rot_1"@,
        "rot_2"@,
        "rot_3"@,
    ]
}

/// Some property in `props` is named `name`.
pub open spec fn has_property(props: Seq<PropertyView>, name: Seq<char>) -> bool {
    exists|i: int| 0 <= i < props.len() && #[trigger] props[i].name == name
}

/// The first required name from position `k` on that `props` lacks.
pub open spec fn first_missing_from(props: Seq<PropertyView>, k: int) -> Option<Seq<char>>
    decreases 14 - k,
{
    if k < 0 || k >= 14 {
        None
    } else if !has_property(props, required_property_names()[k]) {
        Some(required_property_names()[k])
    } else {
        first_missing_from(props, k + 1)
    }
}

/// What parsing the header of the file `b` gives.
pub open spec fn header_of(b: Seq<u8>) -> Result<HeaderView, LoadFailure> {
    match marker_search(b, 0) {
        None => Err(LoadFailure::MissingEndHeader),
        Some(m) => {
            let text = b.take(m);
            if !valid_utf8(text) {
                Err(LoadFailure::HeaderNotUtf8)
            } else {
                match scan_header_lines(split_lines(decode_utf8(text))) {
                    Err(e) => Err(e),
                    Ok(st) => {
                        if st.format is None {
                            Err(LoadFailure::MissingFormatLine)
                        } else if st.vertex_count is None {
                            Err(LoadFailure::MissingVertexElement)
                        } else {
                            match first_missing_from(st.properties, 0) {
                                Some(name) => Err(LoadFailure::MissingProperty(name)),
                                None => Ok(
                                    HeaderView {
                                        format: st.format->0,
                                        vertex_count: st.vertex_count->0,
                                        vertex_properties: st.properties,
                                        data_start: skip_line_breaks(b, m + 10) as usize,
                                    },
                                ),
                            }
                        }
                    },
                }
            }
        },
    }
}

/// The view of a parse result.
pub open spec fn header_result_view(r: Result<PlyHeader, LoadError>) -> Result<
    HeaderView,
    LoadFailure,
> {
    match r {
        Ok(h) => Ok(h@),
        Err(e) => Err(e@),
    }
}

/// `std::str::from_utf8`: succeeds exactly on well-formed UTF-8 and then
/// hands back a text whose encoding is the input.
#[verifier::external_body]
fn utf8_text(bytes: &[u8]) -> (r: Option<&str>)
    ensures
        r is Some <==> valid_utf8(bytes@),
        r matches Some(s) ==> encode_utf8(s@) == bytes@,
{
    std::str::from_utf8(bytes).ok()
}

fn marker_at_exec(b: &[u8], i: usize) -> (r: bool)
    requires
        i + 10 <= b.len(),
    ensures
        r == marker_at(b@, i as int),
{
    let ok = b[i] == 101 && b[i + 1] == 110 && b[i + 2] == 100 && b[i + 3] == 95 && b[i + 4]
        == 104 && b[i + 5] == 101 && b[i + 6] == 97 && b[i + 7] == 100 && b[i + 8] == 101 && b[i
        + 9] == 114;
    let ghost s = b@.subrange(i as int, i + 10);
    let ghost e = end_header_bytes();
    assert(s[0] == b@[i as int] && s[1] == b@[i + 1] && s[2] == b@[i + 2] && s[3] == b@[i + 3]
        && s[4] == b@[i + 4] && s[5] == b@[i + 5] && s[6] == b@[i + 6] && s[7] == b@[i + 7] && s[8]
        == b@[i + 8] && s[9] == b@[i + 9]);
    assert(e[0] == 101 && e[1] == 110 && e[2] == 100 && e[3] == 95 && e[4] == 104 && e[5] == 101
        && e[6] == 97 && e[7] == 100 && e[8] == 101 && e[9] == 114);
    if ok {
        assert(s =~= e);
    } else {
        assert(s != e);
    }
    ok
}

/// The offset of the first `end_header` in `bytes`.
fn find_end_header(bytes: &[u8]) -> (r: Option<usize>)
    ensures
        marker_search(bytes@, 0) is None <==> r is None,
        r matches Some(x) ==> marker_search(bytes@, 0) == Some(x as int) && x + 10 <= bytes@.len(),
{
    if bytes.len() < 10 {
        return None;
    }
    let mut m: usize = 0;
    while m <= bytes.len() - 10
        invariant
            bytes.len() >= 10,
            marker_search(bytes@, 0) == marker_search(bytes@, m as int),
        decreases bytes.len() - m,
    {
        if marker_at_exec(bytes, m) {
            return Some(m);
        }
        m += 1;
    }
    None
}

/// The exec state of a header scan.
struct ScanState {
    format: Option<PlyFormat>,
    vertex_count: Option<usize>,
    properties: Vec<Property>,
    in_vertex: bool,
}

impl View for ScanState {
    type V = HeaderScan;

    closed spec fn view(&self) -> HeaderScan {
        HeaderScan {
            format: self.format,
            vertex_count: self.vertex_count,
            properties: property_views(self.properties@),
            in_vertex: self.in_vertex,
        }
    }
}

fn header_line(st: &mut ScanState, words: &Vec<Vec<char>>) -> (r: Result<(), LoadError>)
    ensures
        match header_line_step(old(st)@, views_of(words@)) {
            Ok(next) => r is Ok && final(st)@ == next,
            Err(e) => r matches Err(x) && x@ == e,
        },
{
    let ghost w = views_of(words@);
    let n = words.len();
    if n == 1 && chars_are(words[0].as_slice(), "ply") {
        return Ok(());
    }
    if n == 3 && chars_are(words[0].as_slice(), "format") {
        if chars_are(words[1].as_slice(), "ascii") {
            st.format = Some(PlyFormat::Ascii);
            return Ok(());
        } else if chars_are(words[1].as_slice(), "binary_little_endian") {
            st.format = Some(PlyFormat::BinaryLittleEndian);
            return Ok(());
        } else {
            return Err(LoadError::UnsupportedFormat(string_from_chars(words[1].as_slice())));
        }
    }
    if n == 3 && chars_are(words[0].as_slice(), "element") {
        if chars_are(words[1].as_slice(), "vertex") {
            match parse_usize(words[2].as_slice()) {
                Some(count) => {
                    st.vertex_count = Some(count);
                    st.in_vertex = true;
                    return Ok(());
                },
                None => {
                    return Err(LoadError::InvalidVertexCount);
                },
            }
        } else {
            st.in_vertex = false;
            return Ok(());
        }
    }
    if n == 3 && chars_are(words[0].as_slice(), "property") && st.in_vertex {
        match ScalarType::from_chars(words[1].as_slice()) {
            Some(t) => {
                let ghost before = st.properties@;
                let name = string_from_chars(words[2].as_slice());
                st.properties.push(Property { name, scalar_type: t });
                assert(property_views(st.properties@) == property_views(before).push(
                    PropertyView { name: w[2], scalar_type: t },
                ));
                return Ok(());
            },
            None => {
                return Err(LoadError::UnsupportedPropertyType(string_from_chars(words[1].as_slice())));
            },
        }
    }
    if n >= 2 && chars_are(words[0].as_slice(), "property") && chars_are(
        words[1].as_slice(),
        "list",
    ) && st.in_vertex {
        return Err(LoadError::ListProperty);
    }
    Ok(())
}

/// Whether the required property `name` is declared in `props`.
fn declares(props: &[Property], name: &str) -> (r: bool)
    ensures
        r == has_property(property_views(props@), name@),
{
    let target = collect_chars(name);
    let mut i: usize = 0;
    while i < props.len()
        invariant
            i <= props.len(),
            target@ == name@,
            forall|j: int| 0 <= j < i ==> #[trigger] props@[j].name@ != name@,
        decreases props.len() - i,
    {
        let chars = collect_chars(props[i].name.as_str());
        if crate::text::chars_equal(chars.as_slice(), target.as_slice()) {
            assert(property_views(props@)[i as int].name == name@);
            return true;
        }
        i += 1;
    }
    assert forall|j: int| 0 <= j < props@.len() implies #[trigger] property_views(props@)[j].name
        != name@ by {
        assert(property_views(props@)[j] == props@[j]@);
    }
    false
}

/// Checks that every property a splat needs is declared; reports the first
/// one (in the order x, y, z, f_dc_0..2, opacity, scale_0..2, rot_0..3)
/// that is not.
pub fn validate_required_properties(properties: &[Property]) -> (r: Result<(), LoadError>)
    ensures
        match first_missing_from(property_views(properties@), 0) {
            None => r is Ok,
            Some(name) => r matches Err(e) && e@ == LoadFailure::MissingProperty(name),
        },
{
    let names: [&str; 14] = [
        "x",
        "y",
        "z",
        "f_dc_0",
        "f_dc_1",
        "f_dc_2",
        "opacity",
        "scale_0",
        "scale_1",
        "scale_2",
        "rot_0",
        "rot_1",
        "rot_2",
        "rot_3",
    ];
    let ghost props = property_views(properties@);
    assert forall|k: int| 0 <= k < 14 implies names@[k]@ == required_property_names()[k] by {}
    let mut k: usize = 0;
    while k < 14
        invariant
            k <= 14,
            forall|j: int| 0 <= j < 14 ==> names@[j]@ == required_property_names()[j],
            props == property_views(properties@),
            first_missing_from(props, 0) == first_missing_from(props, k as int),
        decreases 14 - k,
    {
        assert(names[k as int]@ == required_property_names()[k as int]);
        let present = declares(properties, names[k]);
        assert(present == has_property(props, required_property_names()[k as int]));
        if !present {
            assert(first_missing_from(props, k as int) == Some(required_property_names()[k as int]));
            return Err(LoadError::MissingProperty(String::from_str(names[k])));
        }
        k += 1;
    }
    Ok(())
}

/// Parses the header of a PLY file: finds `end_header`, reads the lines
/// before it, and checks that a format line, a vertex element and every
/// required vertex property are present.
pub fn parse_header(bytes: &[u8]) -> (r: Result<PlyHeader, LoadError>)
    ensures
        header_result_view(r) == header_of(bytes@),
{
    let found = find_end_header(bytes);
    if found.is_none() {
        return Err(LoadError::MissingEndHeader);
    }
    let m = found.unwrap();
    assert(marker_search(bytes@, 0) == Some(m as int));
    assert(m + 10 <= bytes.len());
    let mut data_start = m + 10;
    while data_start < bytes.len() && (bytes[data_start] == 13 || bytes[data_start] == 10)
        invariant
            m + 10 <= data_start <= bytes.len(),
            skip_line_breaks(bytes@, m + 10) == skip_line_breaks(bytes@, data_start as int),
        decreases bytes.len() - data_start,
    {
        data_start += 1;
    }
    let head = &bytes[0..m];
    assert(head@ == bytes@.take(m as int));
    let text = match utf8_text(head) {
        Some(t) => t,
        None => {
            return Err(LoadError::HeaderNotUtf8);
        },
    };
    let chars = collect_chars(text);
    assert(chars@ == decode_utf8(bytes@.take(m as int)));
    let lines = split_lines_of(chars.as_slice());
    let ghost all = views_of(lines@);
    let mut st = ScanState {
        format: None,
        vertex_count: None,
        properties: Vec::new(),
        in_vertex: false,
    };
    assert(property_views(st.properties@) =~= Seq::<PropertyView>::empty());
    let mut k: usize = 0;
    while k < lines.len()
        invariant
            k <= lines.len(),
            all == views_of(lines@),
            all == split_lines(decode_utf8(bytes@.take(m as int))),
            marker_search(bytes@, 0) == Some(m as int),
            valid_utf8(bytes@.take(m as int)),
            scan_header_lines(all.take(k as int)) == Ok::<HeaderScan, LoadFailure>(st@),
        decreases lines.len() - k,
    {
        let words = split_whitespace_of(lines[k].as_slice());
        assert(all.take(k + 1).drop_last() == all.take(k as int));
        assert(all.take(k + 1).last() == lines@[k as int]@);
        match header_line(&mut st, &words) {
            Ok(()) => {},
            Err(e) => {
                assert(scan_header_lines(all.take(k + 1)) == Err::<HeaderScan, LoadFailure>(e@));
                proof {
                    lemma_scan_error_sticks(all, k + 1);
                }
                assert(all.take(all.len() as int) == all);
                return Err(e);
            },
        }
        k += 1;
    }
    assert(all.take(all.len() as int) == all);
    let format = match st.format {
        Some(f) => f,
        None => {
            return Err(LoadError::MissingFormatLine);
        },
    };
    let vertex_count = match st.vertex_count {
        Some(c) => c,
        None => {
            return Err(LoadError::MissingVertexElement);
        },
    };
    match validate_required_properties(st.properties.as_slice()) {
        Ok(()) => {},
        Err(e) => {
            return Err(e);
        },
    }
    Ok(PlyHeader { format, vertex_count, vertex_properties: st.properties, data_start })
}

/// Once a header line is refused, no later line changes the outcome.
proof fn lemma_scan_error_sticks(lines: Seq<Seq<char>>, k: int)
    requires
        0 <= k <= lines.len(),
        scan_header_lines(lines.take(k)) is Err,
    ensures
        scan_header_lines(lines) == scan_header_lines(lines.take(k)),
    decreases lines.len() - k,
{
    if k < lines.len() {
        assert(lines.take(k + 1).drop_last() == lines.take(k));
        lemma_scan_error_sticks(lines, k + 1);
    } else {
        assert(lines.take(k) == lines);
    }
}


/// One value of a binary vertex row, exactly as stored: integers by value,
/// floating-point values by their IEEE-754 bit pattern.
#[derive(Clone, Copy, Debug, PartialEq, Eq, Structural)]
pub enum RawScalar {
    I8(i8),
    U8(u8),
    I16(i16),
    U16(u16),
    I32(i32),
    U32(u32),
    F32Bits(u32),
    F64Bits(u64),
}

/// The unsigned little-endian value of two bytes.
pub open spec fn le16(b: Seq<u8>) -> int {
    b[0] + 256 * b[1]
}

/// The unsigned little-endian value of four bytes.
pub open spec fn le32(b: Seq<u8>) -> int {
    b[0] + 256 * b[1] + 65536 * b[2] + 16777216 * b[3]
}

/// The unsigned little-endian value of eight bytes.
pub open spec fn le64(b: Seq<u8>) -> int {
    le32(b) + 4294967296 * le32(b.skip(4))
}

/// The value of type `t` stored little-endian in `b` (which holds `t.size()` bytes).
pub open spec fn decode_scalar(t: ScalarType, b: Seq<u8>) -> RawScalar {
    match t {
        ScalarType::I8 => RawScalar::I8((if b[0] < 128 { b[0] as int } else { b[0] - 256 }) as i8),
        ScalarType::U8 => RawScalar::U8(b[0]),
        ScalarType::I16 => RawScalar::I16(
            (if le16(b) < 32768 { le16(b) } else { le16(b) - 65536 }) as i16,
        ),
        ScalarType::U16 => RawScalar::U16(le16(b) as u16),
        ScalarType::I32 => RawScalar::I32(
            (if le32(b) < 0x8000_0000 { le32(b) } else { le32(b) - 0x1_0000_0000 }) as i32,
        ),
        ScalarType::U32 => RawScalar::U32(le32(b) as u32),
        ScalarType::F32 => RawScalar::F32Bits(le32(b) as u32),
        ScalarType::F64 => RawScalar::F64Bits(le64(b) as u64),
    }
}

/// Takes the next `n` bytes at `*cursor` and moves the cursor past them;
/// refuses, leaving the cursor where it was, when fewer than `n` are left.
pub fn read_array<'a>(bytes: &'a [u8], cursor: &mut usize, n: usize) -> (r: Result<
    &'a [u8],
    LoadError,
>)
    ensures
        *old(cursor) + n <= bytes@.len() ==> (r matches Ok(s) && s@ == bytes@.subrange(
            *old(cursor) as int,
            *old(cursor) + n,
        ) && *final(cursor) == *old(cursor) + n),
        *old(cursor) + n > bytes@.len() ==> (r matches Err(e) && e@
            == LoadFailure::TruncatedBinaryData && *final(cursor) == *old(cursor)),
{
    let start = *cursor;
    if start > bytes.len() || n > bytes.len() - start {
        return Err(LoadError::TruncatedBinaryData);
    }
    let end = start + n;
    *cursor = end;
    Ok(&bytes[start..end])
}

impl ScalarType {
    /// Decodes one value of this type from the start of `b`.
    pub fn decode(self, b: &[u8]) -> (r: RawScalar)
        requires
            b@.len() == self.size(),
        ensures
            r == decode_scalar(self, b@),
    {
        match self {
            ScalarType::I8 => {
                let u = b[0];
                RawScalar::I8(
                    if u < 128 {
                        u as i8
                    } else {
                        (u as i16 - 256) as i8
                    },
                )
            },
            ScalarType::U8 => RawScalar::U8(b[0]),
            ScalarType::I16 => {
                let u = (b[0] as u32) + 256 * (b[1] as u32);
                RawScalar::I16(
                    if u < 32768 {
                        u as i16
                    } else {
                        (u as i32 - 65536) as i16
                    },
                )
            },
            ScalarType::U16 => RawScalar::U16(((b[0] as u32) + 256 * (b[1] as u32)) as u16),
            ScalarType::I32 => {
                let u = le32_of(b);
                RawScalar::I32(
                    if u < 0x8000_0000 {
                        u as i32
                    } else {
                        (u as i64 - 0x1_0000_0000) as i32
                    },
                )
            },
            ScalarType::U32 => RawScalar::U32(le32_of(b)),
            ScalarType::F32 => RawScalar::F32Bits(le32_of(b)),
            ScalarType::F64 => {
                let lo = le32_of(&b[0..4]);
                let hi = le32_of(&b[4..8]);
                assert(b@.subrange(0, 4)[0] == b@[0] && b@.subrange(0, 4)[1] == b@[1] && b@.subrange(0, 4)[2] == b@[2] && b@.subrange(0, 4)[3] == b@[3]);
                assert(b@.subrange(4, 8) =~= b@.skip(4).subrange(0, 4));
                assert(b@.skip(4)[0] == b@[4] && b@.skip(4)[1] == b@[5] && b@.skip(4)[2] == b@[6] && b@.skip(4)[3] == b@[7]);
                RawScalar::F64Bits((lo as u64) + 4294967296 * (hi as u64))
            },
        }
    }
}

fn le32_of(b: &[u8]) -> (r: u32)
    requires
        b@.len() >= 4,
    ensures
        r == le32(b@),
{
    (b[0] as u32) + 256 * (b[1] as u32) + 65536 * (b[2] as u32) + 16777216 * (b[3] as u32)
}

/// The number of bytes one vertex row takes.
pub open spec fn row_size(props: Seq<PropertyView>) -> nat
    decreases props.len(),
{
    if props.len() == 0 {
        0
    } else {
        row_size(props.drop_last()) + props.last().scalar_type.size()
    }
}

/// One binary row: each property's value decoded at its offset.
pub open spec fn decode_row(props: Seq<PropertyView>, b: Seq<u8>) -> Seq<RawScalar> {
    Seq::new(
        props.len(),
        |k: int|
            decode_scalar(
                props[k].scalar_type,
                b.subrange(row_size(props.take(k)) as int, row_size(props.take(k + 1)) as int),
            ),
    )
}

/// The rows of a binary body: `count` rows of `row_size(props)` bytes each,
/// read from the start of `b`; refused when `b` is too short for them.
pub open spec fn binary_rows(props: Seq<PropertyView>, count: nat, b: Seq<u8>) -> Result<
    Seq<Seq<RawScalar>>,
    LoadFailure,
> {
    let rs = row_size(props);
    if count * rs <= b.len() {
        Ok(Seq::new(count, |r: int| decode_row(props, b.subrange(r * rs, r * rs + rs))))
    } else {
        Err(LoadFailure::TruncatedBinaryData)
    }
}


/// The contents of a list of rows.
pub open spec fn rows_view(v: Seq<Vec<RawScalar>>) -> Seq<Seq<RawScalar>> {
    v.map_values(|x: Vec<RawScalar>| x@)
}

proof fn lemma_row_size_step(props: Seq<PropertyView>, k: int)
    requires
        0 <= k < props.len(),
    ensures
        row_size(props.take(k + 1)) == row_size(props.take(k)) + props[k].scalar_type.size(),
{
    assert(props.take(k + 1).drop_last() == props.take(k));
}

proof fn lemma_row_size_prefix(props: Seq<PropertyView>, k: int)
    requires
        0 <= k <= props.len(),
    ensures
        row_size(props.take(k)) <= row_size(props),
    decreases props.len() - k,
{
    if k < props.len() {
        lemma_row_size_step(props, k);
        lemma_row_size_prefix(props, k + 1);
    } else {
        assert(props.take(k) == props);
    }
}

/// Reads the binary little-endian vertex rows that follow the header:
/// `vertex_count` rows, each holding one value per declared property.
pub fn parse_binary_vertices(body: &[u8], header: &PlyHeader) -> (r: Result<
    Vec<Vec<RawScalar>>,
    LoadError,
>)
    ensures
        match binary_rows(header@.vertex_properties, header.vertex_count as nat, body@) {
            Ok(rows) => r matches Ok(v) && rows_view(v@) == rows,
            Err(e) => r matches Err(x) && x@ == e,
        },
{
    let props = &header.vertex_properties;
    let ghost pv = property_views(props@);
    let ghost rs = row_size(pv);
    let ghost b = body@;
    let count = header.vertex_count;
    let mut cursor: usize = 0;
    let mut rows: Vec<Vec<RawScalar>> = Vec::new();
    let mut r: usize = 0;
    while r < count
        invariant
            pv == property_views(props@),
            rs == row_size(pv),
            b == body@,
            count == header.vertex_count,
            props == header.vertex_properties,
            r <= count,
            cursor == r * rs,
            cursor <= body@.len(),
            rows_view(rows@) == Seq::new(
                r as nat,
                |i: int| decode_row(pv, b.subrange(i * rs, i * rs + rs)),
            ),
        decreases count - r,
    {
        let mut row: Vec<RawScalar> = Vec::new();
        let mut k: usize = 0;
        let ghost base = r * rs;
        while k < props.len()
            invariant
                pv == property_views(props@),
                rs == row_size(pv),
                b == body@,
                base == r * rs,
                r < count,
                count == header.vertex_count,
                props == header.vertex_properties,
                k <= props.len(),
                cursor == base + row_size(pv.take(k as int)),
                cursor <= body@.len(),
                row@ == Seq::new(
                    k as nat,
                    |j: int|
                        decode_scalar(
                            pv[j].scalar_type,
                            b.subrange(
                                base + row_size(pv.take(j)),
                                base + row_size(pv.take(j + 1)),
                            ),
                        ),
                ),
            decreases props.len() - k,
        {
            let t = props[k].scalar_type;
            let n = t.byte_size();
            proof {
                lemma_row_size_step(pv, k as int);
                lemma_row_size_prefix(pv, k + 1);
                assert(pv[k as int].scalar_type == t);
            }
            match read_array(body, &mut cursor, n) {
                Ok(bs) => {
                    let v = t.decode(bs);
                    let ghost old_row = row@;
                    row.push(v);
                    assert(row@ =~= Seq::new(
                        (k + 1) as nat,
                        |j: int|
                            decode_scalar(
                                pv[j].scalar_type,
                                b.subrange(
                                    base + row_size(pv.take(j)),
                                    base + row_size(pv.take(j + 1)),
                                ),
                            ),
                    ));
                },
                Err(e) => {
                    proof {
                        assert(base + rs > b.len());
                        assert((r + 1) * rs == base + rs) by (nonlinear_arith)
                            requires
                                base == r * rs,
                        ;
                        assert(count * rs >= (r + 1) * rs) by (nonlinear_arith)
                            requires
                                r + 1 <= count,
                        ;
                        assert(header@.vertex_properties == pv);
                        assert(binary_rows(pv, count as nat, b) is Err);
                        assert(e@ == LoadFailure::TruncatedBinaryData);
                    }
                    return Err(e);
                },
            }
            k += 1;
        }
        proof {
            assert(pv.take(pv.len() as int) == pv);
            assert forall|j: int| #![trigger pv[j]] 0 <= j < pv.len() implies b.subrange(
                base + row_size(pv.take(j)),
                base + row_size(pv.take(j + 1)),
            ) == b.subrange(base, base + rs).subrange(
                row_size(pv.take(j)) as int,
                row_size(pv.take(j + 1)) as int,
            ) by {
                lemma_row_size_step(pv, j);
                lemma_row_size_prefix(pv, j + 1);
                assert(b.subrange(
                    base + row_size(pv.take(j)),
                    base + row_size(pv.take(j + 1)),
                ) =~= b.subrange(base, base + rs).subrange(
                    row_size(pv.take(j)) as int,
                    row_size(pv.take(j + 1)) as int,
                ));
            }
            assert(row@ =~= decode_row(pv, b.subrange(base, base + rs)));
            assert((r + 1) * rs == base + rs) by (nonlinear_arith)
                requires
                    base == r * rs,
            ;
        }
        let ghost old_rows = rows@;
        let ghost row_v = row@;
        rows.push(row);
        assert(rows_view(rows@) =~= rows_view(old_rows).push(row_v));
        assert(rows_view(rows@) =~= Seq::new(
            (r + 1) as nat,
            |i: int| decode_row(pv, b.subrange(i * rs, i * rs + rs)),
        ));
        r += 1;
    }
    Ok(rows)
}


/// The position of the last property before position `n` named `name`.
pub open spec fn last_named(props: Seq<PropertyView>, name: Seq<char>, n: int) -> Option<int>
    decreases n,
{
    if n <= 0 {
        None
    } else if props[n - 1].name == name {
        Some(n - 1)
    } else {
        last_named(props, name, n - 1)
    }
}

/// Which value of a row a property name reads: a row's values are keyed by
/// property name, so a name declared twice reads its last declaration.
pub open spec fn value_index(props: Seq<PropertyView>, name: Seq<char>) -> Option<int> {
    last_named(props, name, props.len() as int)
}

/// The coefficient index of a higher-order SH property: `f_rest_<n>`,
/// where `<n>` parses as a `usize`.
pub open spec fn rest_index(name: Seq<char>) -> Option<usize> {
    if name.len() >= 7 && name.take(7) == "f_rest_"@ {
        parse_usize_spec(name.skip(7))
    } else {
        None
    }
}

/// Property `a` comes before property `b` among the SH coefficients: by
/// coefficient index, and by declaration order between equal indices.
pub open spec fn rest_before(props: Seq<PropertyView>, a: int, b: int) -> bool {
    let ia = rest_index(props[a].name)->0;
    let ib = rest_index(props[b].name)->0;
    ia < ib || (ia == ib && a < b)
}

/// `o` lists the positions of the `f_rest_<n>` properties among the first
/// `n` properties, each once, in coefficient order.
pub open spec fn is_rest_order(props: Seq<PropertyView>, o: Seq<int>, n: int) -> bool {
    &&& forall|i: int|
        0 <= i < o.len() ==> 0 <= #[trigger] o[i] < n && rest_index(props[o[i]].name) is Some
    &&& forall|k: int|
        0 <= k < n && (#[trigger] rest_index(props[k].name)) is Some ==> o.contains(k)
    &&& forall|i: int, j: int| 0 <= i < j < o.len() ==> rest_before(props, #[trigger] o[i], #[trigger] o[j])
}

/// Where each field of a splat is read from in a vertex row.
#[derive(Clone, Debug)]
pub struct RowLayout {
    pub position: [usize; 3],
    pub f_dc: [usize; 3],
    pub opacity: usize,
    pub log_scale: [usize; 3],
    pub rotation: [usize; 4],
    /// The higher-order SH coefficients, in coefficient order.
    pub f_rest: Vec<usize>,
}

fn rest_index_of(name: &[char]) -> (r: Option<usize>)
    ensures
        r == rest_index(name@),
{
    if name.len() < 7 {
        return None;
    }
    if !chars_are(&name[0..7], "f_rest_") {
        assert(name@.subrange(0, 7) == name@.take(7));
        return None;
    }
    assert(name@.subrange(0, 7) == name@.take(7));
    assert(name@.subrange(7, name@.len() as int) == name@.skip(7));
    parse_usize(&name[7..name.len()])
}

proof fn lemma_has_property_last(props: Seq<PropertyView>, name: Seq<char>, n: int, i: int)
    requires
        0 <= i < n <= props.len(),
        props[i].name == name,
    ensures
        last_named(props, name, n) matches Some(j) && 0 <= j < n && props[j].name == name,
    decreases n,
{
    if props[n - 1].name != name {
        lemma_has_property_last(props, name, n - 1, i);
    }
}

/// The position of the last property named `name`.
pub fn last_index_named(props: &[Property], name: &[char]) -> (r: Option<usize>)
    ensures
        r matches Some(x) ==> value_index(property_views(props@), name@) == Some(x as int),
        r is None ==> value_index(property_views(props@), name@) is None,
{
    let ghost pv = property_views(props@);
    let mut n = props.len();
    while n > 0
        invariant
            n <= props.len(),
            pv == property_views(props@),
            value_index(pv, name@) == last_named(pv, name@, n as int),
        decreases n,
    {
        let chars = collect_chars(props[n - 1].name.as_str());
        assert(pv[n - 1] == props@[n - 1]@);
        if crate::text::chars_equal(chars.as_slice(), name) {
            return Some(n - 1);
        }
        n -= 1;
    }
    None
}

/// The positions of the `f_rest_<n>` properties, ordered by coefficient
/// index and, between equal indices, by declaration order.
pub fn f_rest_order(props: &[Property]) -> (o: Vec<usize>)
    ensures
        is_rest_order(property_views(props@), o@.map_values(|x: usize| x as int), props@.len() as int),
{
    let ghost pv = property_views(props@);
    let mut order: Vec<usize> = Vec::new();
    let mut keys: Vec<usize> = Vec::new();
    let mut k: usize = 0;
    while k < props.len()
        invariant
            k <= props.len(),
            pv == property_views(props@),
            pv.len() == props@.len(),
            order@.len() == keys@.len(),
            forall|i: int| 0 <= i < order@.len() ==> rest_index(pv[order@[i] as int].name) == Some(#[trigger] keys@[i]),
            is_rest_order(pv, order@.map_values(|x: usize| x as int), k as int),
        decreases props.len() - k,
    {
        let chars = collect_chars(props[k].name.as_str());
        assert(pv[k as int] == props@[k as int]@);
        let ghost o = order@.map_values(|x: usize| x as int);
        match rest_index_of(chars.as_slice()) {
            None => {
                assert(is_rest_order(pv, o, k + 1)) by {
                    assert forall|q: int|
                        0 <= q < k + 1 && (#[trigger] rest_index(pv[q].name)) is Some implies o.contains(q) by {
                        if q < k {
                        }
                    }
                }
            },
            Some(idx) => {
                let mut p: usize = 0;
                while p < keys.len() && keys[p] <= idx
                    invariant
                        p <= keys@.len(),
                        forall|i: int| 0 <= i < p ==> #[trigger] keys@[i] <= idx,
                    decreases keys@.len() - p,
                {
                    p += 1;
                }
                let mut new_order: Vec<usize> = Vec::new();
                let mut new_keys: Vec<usize> = Vec::new();
                let mut i: usize = 0;
                while i < p
                    invariant
                        i <= p <= order@.len(),
                        order@.len() == keys@.len(),
                        new_order@ == order@.take(i as int),
                        new_keys@ == keys@.take(i as int),
                    decreases p - i,
                {
                    new_order.push(order[i]);
                    new_keys.push(keys[i]);
                    assert(order@.take(i + 1) == order@.take(i as int).push(order@[i as int]));
                    assert(keys@.take(i + 1) == keys@.take(i as int).push(keys@[i as int]));
                    i += 1;
                }
                new_order.push(k);
                new_keys.push(idx);
                while i < order.len()
                    invariant
                        p <= i <= order@.len(),
                        order@.len() == keys@.len(),
                        new_order@ == order@.take(p as int).push(k) + order@.subrange(p as int, i as int),
                        new_keys@ == keys@.take(p as int).push(idx) + keys@.subrange(p as int, i as int),
                    decreases order@.len() - i,
                {
                    new_order.push(order[i]);
                    new_keys.push(keys[i]);
                    assert(order@.subrange(p as int, i + 1) == order@.subrange(p as int, i as int).push(order@[i as int]));
                    assert(keys@.subrange(p as int, i + 1) == keys@.subrange(p as int, i as int).push(keys@[i as int]));
                    i += 1;
                }
                proof {
                    lemma_insert_keeps_order(pv, order@, keys@, p as int, k, idx, new_order@, new_keys@);
                }
                order = new_order;
                keys = new_keys;
            },
        }
        k += 1;
    }
    order
}

proof fn lemma_insert_keeps_order(
    pv: Seq<PropertyView>,
    order: Seq<usize>,
    keys: Seq<usize>,
    p: int,
    k: usize,
    idx: usize,
    new_order: Seq<usize>,
    new_keys: Seq<usize>,
)
    requires
        0 <= p <= order.len(),
        order.len() == keys.len(),
        0 <= k < pv.len(),
        rest_index(pv[k as int].name) == Some(idx),
        forall|i: int| 0 <= i < order.len() ==> rest_index(pv[order[i] as int].name) == Some(#[trigger] keys[i]),
        is_rest_order(pv, order.map_values(|x: usize| x as int), k as int),
        forall|i: int| 0 <= i < p ==> #[trigger] keys[i] <= idx,
        p < keys.len() ==> keys[p] > idx,
        new_order == order.take(p).push(k) + order.subrange(p, order.len() as int),
        new_keys == keys.take(p).push(idx) + keys.subrange(p, keys.len() as int),
    ensures
        new_order.len() == new_keys.len(),
        forall|i: int| 0 <= i < new_order.len() ==> rest_index(pv[new_order[i] as int].name) == Some(#[trigger] new_keys[i]),
        is_rest_order(pv, new_order.map_values(|x: usize| x as int), k + 1),
{
    let o = order.map_values(|x: usize| x as int);
    let no = new_order.map_values(|x: usize| x as int);
    assert forall|i: int| 0 <= i < new_order.len() implies rest_index(pv[new_order[i] as int].name) == Some(#[trigger] new_keys[i]) by {
        if i < p {
            assert(new_order[i] == order[i] && new_keys[i] == keys[i]);
        } else if i == p {
            assert(new_order[i] == k && new_keys[i] == idx);
        } else {
            assert(new_order[i] == order[i - 1] && new_keys[i] == keys[i - 1]);
        }
    }
    // keys never decrease along the old order
    assert forall|a: int, b: int| 0 <= a < b < order.len() implies keys[a] <= keys[b] by {
        assert(rest_before(pv, o[a], o[b]));
    }
    assert forall|i: int| 0 <= i < no.len() implies 0 <= #[trigger] no[i] < k + 1 && rest_index(pv[no[i]].name) is Some by {
        assert(new_order[i] as int == no[i]);
        if i < p {
            assert(new_order[i] == order[i]);
            assert(no[i] == o[i]);
        } else if i > p {
            assert(new_order[i] == order[i - 1]);
            assert(no[i] == o[i - 1]);
        } else {
            assert(new_order[i] == k);
        }
    }
    assert forall|q: int| 0 <= q < k + 1 && (#[trigger] rest_index(pv[q].name)) is Some implies no.contains(q) by {
        if q == k {
            assert(no[p] == k);
        } else {
            assert(o.contains(q));
            let i = choose|i: int| 0 <= i < o.len() && o[i] == q;
            if i < p {
                assert(no[i] == q);
            } else {
                assert(no[i + 1] == q);
            }
        }
    }
    assert forall|i: int, j: int| 0 <= i < j < no.len() implies rest_before(pv, #[trigger] no[i], #[trigger] no[j]) by {
        if j < p {
            assert(no[i] == o[i] && no[j] == o[j]);
        } else if j == p {
            assert(no[i] == o[i]);
            assert(keys[i] <= idx);
            assert(o[i] < k);
        } else if i < p {
            assert(no[i] == o[i] && no[j] == o[j - 1]);
        } else if i == p {
            assert(no[j] == o[j - 1]);
            assert(keys[p] > idx);
            assert(keys[p] <= keys[j - 1] || p == j - 1);
        } else {
            assert(no[i] == o[i - 1] && no[j] == o[j - 1]);
        }
    }
}

/// Where each splat field is read from in a row described by `props`.
pub fn row_layout(props: &[Property]) -> (l: RowLayout)
    requires
        first_missing_from(property_views(props@), 0) is None,
    ensures
        l.position@.map_values(|x: usize| x as int) == seq![
            value_index(property_views(props@), "x"@)->0,
            value_index(property_views(props@), "y"@)->0,
            value_index(property_views(props@), "z"@)->0,
        ],
        l.f_dc@.map_values(|x: usize| x as int) == seq![
            value_index(property_views(props@), "f_dc_0"@)->0,
            value_index(property_views(props@), "f_dc_1"@)->0,
            value_index(property_views(props@), "f_dc_2"@)->0,
        ],
        l.opacity as int == value_index(property_views(props@), "opacity"@)->0,
        l.log_scale@.map_values(|x: usize| x as int) == seq![
            value_index(property_views(props@), "scale_0"@)->0,
            value_index(property_views(props@), "scale_1"@)->0,
            value_index(property_views(props@), "scale_2"@)->0,
        ],
        l.rotation@.map_values(|x: usize| x as int) == seq![
            value_index(property_views(props@), "rot_0"@)->0,
            value_index(property_views(props@), "rot_1"@)->0,
            value_index(property_views(props@), "rot_2"@)->0,
            value_index(property_views(props@), "rot_3"@)->0,
        ],
        exists|o: Seq<int>|
            {
                &&& is_rest_order(property_views(props@), o, props@.len() as int)
                &&& l.f_rest@.len() == o.len()
                &&& forall|i: int|
                    0 <= i < o.len() ==> value_index(
                        property_views(props@),
                        property_views(props@)[o[i]].name,
                    ) == Some(#[trigger] l.f_rest@[i] as int)
            },
{
    let ghost pv = property_views(props@);
    let px = required_position(props, "x", 0);
    let py = required_position(props, "y", 1);
    let pz = required_position(props, "z", 2);
    let d0 = required_position(props, "f_dc_0", 3);
    let d1 = required_position(props, "f_dc_1", 4);
    let d2 = required_position(props, "f_dc_2", 5);
    let op = required_position(props, "opacity", 6);
    let s0 = required_position(props, "scale_0", 7);
    let s1 = required_position(props, "scale_1", 8);
    let s2 = required_position(props, "scale_2", 9);
    let r0 = required_position(props, "rot_0", 10);
    let r1 = required_position(props, "rot_1", 11);
    let r2 = required_position(props, "rot_2", 12);
    let r3 = required_position(props, "rot_3", 13);
    let order = f_rest_order(props);
    let ghost o = order@.map_values(|x: usize| x as int);
    let mut f_rest: Vec<usize> = Vec::new();
    let mut i: usize = 0;
    while i < order.len()
        invariant
            i <= order@.len(),
            pv == property_views(props@),
            o == order@.map_values(|x: usize| x as int),
            is_rest_order(pv, o, props@.len() as int),
            f_rest@.len() == i,
            forall|j: int| 0 <= j < i ==> value_index(pv, pv[o[j]].name) == Some(#[trigger] f_rest@[j] as int),
        decreases order@.len() - i,
    {
        let at = order[i];
        assert(o[i as int] == at as int);
        let chars = collect_chars(props[at].name.as_str());
        assert(pv[at as int] == props@[at as int]@);
        proof {
            lemma_has_property_last(pv, pv[at as int].name, pv.len() as int, at as int);
        }
        let v = last_index_named(props, chars.as_slice()).unwrap();
        f_rest.push(v);
        i += 1;
    }
    let l = RowLayout {
        position: [px, py, pz],
        f_dc: [d0, d1, d2],
        opacity: op,
        log_scale: [s0, s1, s2],
        rotation: [r0, r1, r2, r3],
        f_rest,
    };
    assert(l.position@.map_values(|x: usize| x as int) =~= seq![px as int, py as int, pz as int]);
    assert(l.f_dc@.map_values(|x: usize| x as int) =~= seq![d0 as int, d1 as int, d2 as int]);
    assert(l.log_scale@.map_values(|x: usize| x as int) =~= seq![s0 as int, s1 as int, s2 as int]);
    assert(l.rotation@.map_values(|x: usize| x as int) =~= seq![r0 as int, r1 as int, r2 as int, r3 as int]);
    l
}

/// The position of the required property `name`, the `k`-th in the checked order.
fn required_position(props: &[Property], name: &str, k: usize) -> (r: usize)
    requires
        first_missing_from(property_views(props@), 0) is None,
        k < 14,
        name@ == required_property_names()[k as int],
    ensures
        value_index(property_views(props@), name@) == Some(r as int),
{
    proof {
        lemma_all_required_present(property_views(props@), 0, k as int);
        let pv = property_views(props@);
        let i = choose|i: int| 0 <= i < pv.len() && #[trigger] pv[i].name == name@;
        lemma_has_property_last(pv, name@, pv.len() as int, i);
    }
    let chars = collect_chars(name);
    last_index_named(props, chars.as_slice()).unwrap()
}

proof fn lemma_all_required_present(props: Seq<PropertyView>, from: int, k: int)
    requires
        0 <= from <= k < 14,
        first_missing_from(props, from) is None,
    ensures
        has_property(props, required_property_names()[k]),
    decreases k - from,
{
    if from < k {
        lemma_all_required_present(props, from + 1, k);
    }
}


/// The offset of the first line feed at or after `i`, or the length of `b`.
pub open spec fn next_line_feed(b: Seq<u8>, i: int) -> int
    decreases b.len() - i,
{
    if i >= b.len() || i < 0 {
        b.len() as int
    } else if b[i] == 10 {
        i
    } else {
        next_line_feed(b, i + 1)
    }
}

/// The words of the ASCII vertex lines: at most `count` lines read from
/// offset `start`, each cut into whitespace-separated words; refused when
/// one of those lines is not UTF-8.
pub open spec fn ascii_rows(b: Seq<u8>, start: int, count: nat) -> Result<
    Seq<Seq<Seq<char>>>,
    LoadFailure,
>
    decreases count,
{
    if count == 0 || start >= b.len() || start < 0 {
        Ok(Seq::empty())
    } else {
        let end = next_line_feed(b, start);
        let line = b.subrange(start, end);
        if !valid_utf8(line) {
            Err(LoadFailure::UnreadableAsciiLine)
        } else {
            match ascii_rows(b, end + 1, (count - 1) as nat) {
                Ok(rest) => Ok(seq![split_whitespace(decode_utf8(line))] + rest),
                Err(e) => Err(e),
            }
        }
    }
}

/// The words of a list of rows.
pub open spec fn word_rows_view(v: Seq<Vec<String>>) -> Seq<Seq<Seq<char>>> {
    v.map_values(|row: Vec<String>| row@.map_values(|w: String| w@))
}

/// The line feed search stops at the first line feed or at the end.
pub proof fn lemma_next_line_feed(b: Seq<u8>, i: int)
    requires
        0 <= i <= b.len(),
    ensures
        i <= next_line_feed(b, i) <= b.len(),
        next_line_feed(b, i) < b.len() ==> b[next_line_feed(b, i)] == 10,
        forall|j: int| i <= j < next_line_feed(b, i) ==> b[j] != 10,
    decreases b.len() - i,
{
    if i < b.len() && b[i] != 10 {
        lemma_next_line_feed(b, i + 1);
    }
}

fn words_as_strings(words: Vec<Vec<char>>) -> (r: Vec<String>)
    ensures
        r@.map_values(|w: String| w@) == views_of(words@),
{
    let mut r: Vec<String> = Vec::new();
    let mut i: usize = 0;
    while i < words.len()
        invariant
            i <= words@.len(),
            r@.map_values(|w: String| w@) == views_of(words@).take(i as int),
        decreases words@.len() - i,
    {
        let w = string_from_chars(words[i].as_slice());
        assert(w@ == views_of(words@)[i as int]);
        let ghost before = r@;
        r.push(w);
        assert(views_of(words@).take(i + 1) == views_of(words@).take(i as int).push(w@));
        assert(r@.map_values(|w: String| w@) =~= views_of(words@).take(i + 1));
        i += 1;
    }
    assert(views_of(words@).take(words@.len() as int) == views_of(words@));
    r
}

/// Reads the first `count` lines of an ASCII body (fewer if the body ends
/// first) and cuts each into its whitespace-separated words.
#[verifier::spinoff_prover]
pub fn ascii_vertex_words(body: &[u8], count: usize) -> (r: Result<Vec<Vec<String>>, LoadError>)
    ensures
        match ascii_rows(body@, 0, count as nat) {
            Ok(rows) => r matches Ok(v) && word_rows_view(v@) == rows,
            Err(e) => r matches Err(x) && x@ == e,
        },
{
    let ghost b = body@;
    let mut rows: Vec<Vec<String>> = Vec::new();
    let mut start: usize = 0;
    let mut done: usize = 0;
    while done < count && start < body.len()
        invariant
            b == body@,
            done <= count,
            start <= body@.len(),
            match ascii_rows(b, 0, count as nat) {
                Ok(all) => match ascii_rows(b, start as int, (count - done) as nat) {
                    Ok(rest) => all == word_rows_view(rows@) + rest,
                    Err(_) => false,
                },
                Err(e) => ascii_rows(b, start as int, (count - done) as nat) == Err::<
                    Seq<Seq<Seq<char>>>,
                    LoadFailure,
                >(e),
            },
        decreases body@.len() - start,
    {
        let mut end = start;
        while end < body.len() && body[end] != 10
            invariant
                start <= end <= body@.len(),
                b == body@,
                next_line_feed(b, start as int) == next_line_feed(b, end as int),
            decreases body@.len() - end,
        {
            end += 1;
        }
        let line = &body[start..end];
        let text = match utf8_text(line) {
            Some(t) => t,
            None => {
                return Err(LoadError::UnreadableAsciiLine);
            },
        };
        let chars = collect_chars(text);
        let words = split_whitespace_of(chars.as_slice());
        let strings = words_as_strings(words);
        let ghost before = rows@;
        rows.push(strings);
        assert(word_rows_view(rows@) =~= word_rows_view(before).push(
            split_whitespace(decode_utf8(b.subrange(start as int, end as int))),
        ));
        proof {
            lemma_next_line_feed(b, start as int);
        }
        start = if end < body.len() {
            end + 1
        } else {
            end
        };
        done += 1;
    }
    Ok(rows)
}

} // verus!
