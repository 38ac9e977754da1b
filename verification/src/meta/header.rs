//! Reading and writing the header of a layer as a sequence of attributes.
//!
//! A header is written as one attribute after another, with a zero byte
//! after the last. Some attributes must be there, and their names stand for
//! fields of the header; all others are kept as they are.

use vstd::prelude::*;
use crate::error::{Error, Value, Required};
use crate::io::{ascii, ascii_bytes, bytes_equal, ByteReader, Parsed, SequenceEnd, read_i32_spec};
use crate::math::{Vec2, IntRect};
use crate::compression::Compression;
use crate::sort::{precedes, bytes_precede};
use crate::file::attributes::{
    Attribute, AttributeValue, AttributeValueView, AttributeView, ChannelList, ChannelView, I32Box2,
    LineOrder, ParsedText, Text, TileDescription, read_null_terminated_spec, attribute_views,
    name_view, scan_line_kind, tile_kind, deep_scan_line_kind, deep_tile_kind, validate_text,
};
use crate::meta::{
    BlockDescription, Header, HeaderView, MagicNumber, MetaData, Requirements, compute_chunk_count,
    magic_number_bytes, spec_chunk_count, tile_size_error,
};

verus! {

/// An attribute of a type that is not known: its name, the name of its
/// type, and how many bytes its value takes.
#[derive(Debug, PartialEq, Eq)]
pub struct UnknownAttribute {
    pub name: Text,
    pub kind: Text,
    pub byte_size: u32,
}

/// What an attribute of a type that is not known holds.
pub struct UnknownAttributeView {
    pub name: Seq<u8>,
    pub kind: Seq<u8>,
    pub byte_size: u32,
}

impl View for UnknownAttribute {
    type V = UnknownAttributeView;

    open spec fn view(&self) -> UnknownAttributeView {
        UnknownAttributeView { name: self.name@, kind: self.kind@, byte_size: self.byte_size }
    }
}

/// The views of the unknown attributes of a vector.
pub open spec fn unknown_views(attributes: Seq<UnknownAttribute>) -> Seq<UnknownAttributeView> {
    Seq::new(attributes.len(), |i: int| attributes[i]@)
}

/// The attributes of a header as they were read: those of a type that is
/// known, and those of a type that is not.
pub struct AttributeViews {
    pub known: Seq<AttributeView>,
    pub unknown: Seq<UnknownAttributeView>,
}

/// A result with the attributes of `head` put in front of those read.
pub open spec fn after_attributes(head: AttributeViews, tail: Parsed<AttributeViews>) -> Parsed<
    AttributeViews,
> {
    match tail {
        Ok((attributes, rest)) => Ok(
            (
                AttributeViews {
                    known: head.known + attributes.known,
                    unknown: head.unknown + attributes.unknown,
                },
                rest,
            ),
        ),
        Err(e) => Err(e),
    }
}

/// Reading an attribute of a type that is not known, where such attributes
/// are skipped: its name, the name of its type and its size are read, and
/// its value is passed over.
pub open spec fn read_unknown_attribute_spec(s: Seq<u8>) -> Parsed<UnknownAttributeView> {
    match read_null_terminated_spec(s) {
        Err(e) => Err(e),
        Ok((name, after_name)) => match read_null_terminated_spec(after_name) {
            Err(e) => Err(e),
            Ok((kind, after_kind)) => match read_i32_spec(after_kind) {
                Err(e) => Err(e),
                Ok((size, after_size)) => if size < 0 {
                    Err(Error::InvalidSize)
                } else if after_size.len() < size {
                    Err(Error::Io)
                } else {
                    Ok(
                        (
                            UnknownAttributeView { name, kind, byte_size: size as u32 },
                            after_size.skip(size as int),
                        ),
                    )
                },
            },
        },
    }
}

/// Whether the attribute that the bytes start with is of a type that is not known.
pub open spec fn starts_with_unknown_attribute(s: Seq<u8>) -> bool {
    read_null_terminated_spec(s) matches Ok((_, after_name)) && read_null_terminated_spec(
        after_name,
    ) matches Ok((kind, _)) && !AttributeValueView::is_known_kind(kind)
}

/// Reading one attribute of a header: an attribute of a type that is
/// known, or, where such attributes are to be skipped, one of a type that
/// is not known, whose value is passed over.
#[verifier::opaque]
pub open spec fn read_header_attribute_spec(s: Seq<u8>, skip_unknown: bool) -> Parsed<
    AttributeViews,
> {
    if skip_unknown && starts_with_unknown_attribute(s) {
        match read_unknown_attribute_spec(s) {
            Err(e) => Err(e),
            Ok((attribute, rest)) => Ok(
                (AttributeViews { known: Seq::empty(), unknown: seq![attribute] }, rest),
            ),
        }
    } else {
        match AttributeView::read_spec(s) {
            Err(e) => Err(e),
            Ok((attribute, rest)) => Ok(
                (AttributeViews { known: seq![attribute], unknown: Seq::empty() }, rest),
            ),
        }
    }
}

/// Reading the attributes of a header, up to the zero byte that ends them.
pub open spec fn read_attributes_spec(s: Seq<u8>, skip_unknown: bool) -> Parsed<AttributeViews>
    decreases s.len(),
{
    if s.len() == 0 {
        Err(Error::Io)
    } else if s[0] == 0 {
        Ok((AttributeViews { known: Seq::empty(), unknown: Seq::empty() }, s.skip(1)))
    } else {
        match read_header_attribute_spec(s, skip_unknown) {
            Err(e) => Err(e),
            Ok((attribute, rest)) => if rest.len() < s.len() {
                after_attributes(attribute, read_attributes_spec(rest, skip_unknown))
            } else {
                Err(Error::Io)
            },
        }
    }
}

/// An attribute that was read took at least one byte.
pub proof fn lemma_attribute_read_consumes(s: Seq<u8>, skip_unknown: bool)
    ensures
        read_header_attribute_spec(s, skip_unknown) matches Ok((_, rest)) ==> rest.len() < s.len(),
{
    reveal(read_header_attribute_spec);
    crate::file::laws::lemma_null_terminated_written_read(s);
    match read_null_terminated_spec(s) {
        Ok((name, after_name)) => {
            crate::file::laws::lemma_null_terminated_written_read(after_name);
            crate::file::laws::lemma_attribute_written_read(s);
        },
        Err(_) => {},
    }
}

/// The attributes of a header as they were read.
pub struct HeaderAttributes {
    /// The attributes of a type that is known, in the order of the file.
    pub known: Vec<Attribute>,
    /// The attributes of a type that is not known, in the order of the file.
    pub unknown: Vec<UnknownAttribute>,
}

impl View for HeaderAttributes {
    type V = AttributeViews;

    open spec fn view(&self) -> AttributeViews {
        AttributeViews { known: attribute_views(self.known@), unknown: unknown_views(self.unknown@) }
    }
}

/// Reads one attribute of a header into `attributes`.
fn read_header_attribute(
    read: &mut ByteReader,
    skip_unknown: bool,
    attributes: &mut HeaderAttributes,
) -> (r: Result<(), Error>)
    ensures
        final(read).source() == old(read).source(),
        match read_header_attribute_spec(old(read).remaining(), skip_unknown) {
            Ok((attribute, rest)) => r == Ok::<(), Error>(()) && final(read).remaining() == rest
                && final(attributes)@.known == old(attributes)@.known + attribute.known
                && final(attributes)@.unknown == old(attributes)@.unknown + attribute.unknown,
            Err(e) => r == Err::<(), Error>(e),
        },
{
    reveal(read_header_attribute_spec);
    let name = Text::read_null_terminated(read)?;
    let kind = Text::read_null_terminated(read)?;
    let ghost before_known = attribute_views(attributes.known@);
    let ghost before_unknown = unknown_views(attributes.unknown@);
    if skip_unknown && !AttributeValue::is_known_kind(&kind) {
        let size = read.read_i32()?;
        if size < 0 {
            return Err(Error::InvalidSize);
        }
        read.skip(size as usize)?;
        let attribute = UnknownAttribute { name, kind, byte_size: size as u32 };
        attributes.unknown.push(attribute);
        proof {
            assert(unknown_views(attributes.unknown@) =~= before_unknown + seq![attribute@]);
            assert(attribute_views(attributes.known@) =~= before_known + Seq::<
                AttributeView,
            >::empty());
        }
        Ok(())
    } else {
        let size = read.read_i32()?;
        if size < 0 {
            return Err(Error::InvalidSize);
        }
        let value = AttributeValue::read(read, kind, size as u32)?;
        let attribute = Attribute { name, value };
        attributes.known.push(attribute);
        proof {
            assert(attribute_views(attributes.known@) =~= before_known + seq![attribute@]);
            assert(unknown_views(attributes.unknown@) =~= before_unknown + Seq::<
                UnknownAttributeView,
            >::empty());
        }
        Ok(())
    }
}

/// Reads the attributes of a header, up to the zero byte that ends them.
/// An attribute of a type that is not known is passed over and reported
/// where `skip_unknown` is set, and is an error where it is not.
pub fn read_attributes(read: &mut ByteReader, skip_unknown: bool) -> (r: Result<
    HeaderAttributes,
    Error,
>)
    ensures
        final(read).source() == old(read).source(),
        match read_attributes_spec(old(read).remaining(), skip_unknown) {
            Ok((attributes, rest)) => r is Ok && r->Ok_0@ == attributes && final(read).remaining()
                == rest,
            Err(e) => r == Err::<HeaderAttributes, Error>(e),
        },
{
    let ghost start = old(read).remaining();
    let mut attributes = HeaderAttributes { known: Vec::new(), unknown: Vec::new() };
    proof {
        assert(attributes@.known =~= Seq::<AttributeView>::empty());
        assert(attributes@.unknown =~= Seq::<UnknownAttributeView>::empty());
    }
    loop
        invariant
            start == old(read).remaining(),
            read.source() == old(read).source(),
            read_attributes_spec(start, skip_unknown) == after_attributes(
                attributes@,
                read_attributes_spec(read.remaining(), skip_unknown),
            ),
        decreases read.remaining().len(),
    {
        let ghost here = read.remaining();
        let ghost before = attributes@;
        if SequenceEnd::has_come(read)? {
            proof {
                assert(before.known + Seq::<AttributeView>::empty() =~= before.known);
                assert(before.unknown + Seq::<UnknownAttributeView>::empty() =~= before.unknown);
            }
            return Ok(attributes);
        }
        proof {
            lemma_attribute_read_consumes(here, skip_unknown);
        }
        read_header_attribute(read, skip_unknown, &mut attributes)?;
        proof {
            let one = read_header_attribute_spec(here, skip_unknown)->Ok_0.0;
            match read_attributes_spec(read.remaining(), skip_unknown) {
                Ok((more, rest)) => {
                    assert(before.known + (one.known + more.known) =~= before.known + one.known
                        + more.known);
                    assert(before.unknown + (one.unknown + more.unknown) =~= before.unknown
                        + one.unknown + more.unknown);
                },
                Err(_) => {},
            }
        }
    }
}

/// The value of the first attribute of the given name, if there is one.
pub open spec fn find_attribute(attributes: Seq<AttributeView>, name: Seq<u8>) -> Option<
    AttributeValueView,
>
    decreases attributes.len(),
{
    if attributes.len() == 0 {
        None
    } else if attributes[0].name == name {
        Some(attributes[0].value)
    } else {
        find_attribute(attributes.skip(1), name)
    }
}

/// The value of the first attribute of the given name, if there is one.
fn find<'a>(attributes: &'a [Attribute], name: &str) -> (r: Option<&'a AttributeValue>)
    requires
        vstd::string::is_ascii(name),
    ensures
        match r {
            Some(value) => find_attribute(attribute_views(attributes@), ascii(name)) == Some(
                value@,
            ),
            None => find_attribute(attribute_views(attributes@), ascii(name)) is None,
        },
{
    let ghost views = attribute_views(attributes@);
    let mut index: usize = 0;
    assert(views.skip(0) =~= views);
    while index < attributes.len()
        invariant
            index <= attributes@.len(),
            views == attribute_views(attributes@),
            vstd::string::is_ascii(name),
            find_attribute(views, ascii(name)) == find_attribute(
                views.skip(index as int),
                ascii(name),
            ),
        decreases attributes@.len() - index,
    {
        proof {
            assert(views.skip(index as int)[0] == attributes@[index as int]@);
            assert(views.skip(index as int).skip(1) =~= views.skip(index + 1));
        }
        if bytes_equal(attributes[index].name.as_slice(), ascii_bytes(name)) {
            return Some(&attributes[index].value);
        }
        index = index + 1;
    }
    None
}

/// Whether the name is that of an attribute that stands for a field of the header.
pub open spec fn is_reserved_name(name: Seq<u8>) -> bool {
    ||| name == ascii("tiles")
    ||| name == ascii("name")
    ||| name == ascii("type")
    ||| name == ascii("version")
    ||| name == ascii("chunkCount")
    ||| name == ascii("maxSamplesPerPixel")
    ||| name == ascii("channels")
    ||| name == ascii("compression")
    ||| name == ascii("dataWindow")
    ||| name == ascii("displayWindow")
    ||| name == ascii("lineOrder")
    ||| name == ascii("pixelAspectRatio")
    ||| name == ascii("screenWindowCenter")
    ||| name == ascii("screenWindowWidth")
}

/// Whether the name is that of an attribute that stands for a field of the header.
fn check_reserved_name(name: &Text) -> (r: bool)
    ensures
        r == is_reserved_name(name@),
{
    proof {
        reveal_strlit("tiles");
        reveal_strlit("name");
        reveal_strlit("type");
        reveal_strlit("version");
        reveal_strlit("chunkCount");
        reveal_strlit("maxSamplesPerPixel");
        reveal_strlit("channels");
        reveal_strlit("compression");
        reveal_strlit("dataWindow");
        reveal_strlit("displayWindow");
        reveal_strlit("lineOrder");
        reveal_strlit("pixelAspectRatio");
        reveal_strlit("screenWindowCenter");
        reveal_strlit("screenWindowWidth");
    }
    let bytes = name.as_slice();
    bytes_equal(bytes, ascii_bytes("tiles")) || bytes_equal(bytes, ascii_bytes("name"))
        || bytes_equal(bytes, ascii_bytes("type")) || bytes_equal(bytes, ascii_bytes("version"))
        || bytes_equal(bytes, ascii_bytes("chunkCount")) || bytes_equal(
        bytes,
        ascii_bytes("maxSamplesPerPixel"),
    ) || bytes_equal(bytes, ascii_bytes("channels")) || bytes_equal(
        bytes,
        ascii_bytes("compression"),
    ) || bytes_equal(bytes, ascii_bytes("dataWindow")) || bytes_equal(
        bytes,
        ascii_bytes("displayWindow"),
    ) || bytes_equal(bytes, ascii_bytes("lineOrder")) || bytes_equal(
        bytes,
        ascii_bytes("pixelAspectRatio"),
    ) || bytes_equal(bytes, ascii_bytes("screenWindowCenter")) || bytes_equal(
        bytes,
        ascii_bytes("screenWindowWidth"),
    )
}

/// The attributes that stand for no field of the header, in their order.
pub open spec fn custom_attributes(attributes: Seq<AttributeView>) -> Seq<AttributeView>
    decreases attributes.len(),
{
    if attributes.len() == 0 {
        Seq::empty()
    } else if is_reserved_name(attributes.last().name) {
        custom_attributes(attributes.drop_last())
    } else {
        custom_attributes(attributes.drop_last()).push(attributes.last())
    }
}

/// Copies of the attributes that stand for no field of the header, in their order.
fn collect_custom_attributes(attributes: &[Attribute]) -> (r: Vec<Attribute>)
    ensures
        attribute_views(r@) == custom_attributes(attribute_views(attributes@)),
{
    let ghost views = attribute_views(attributes@);
    let mut custom: Vec<Attribute> = Vec::new();
    let mut index: usize = 0;
    proof {
        assert(views.take(0) =~= Seq::<AttributeView>::empty());
        assert(attribute_views(custom@) =~= Seq::<AttributeView>::empty());
    }
    while index < attributes.len()
        invariant
            index <= attributes@.len(),
            views == attribute_views(attributes@),
            attribute_views(custom@) == custom_attributes(views.take(index as int)),
        decreases attributes@.len() - index,
    {
        let ghost before = attribute_views(custom@);
        proof {
            assert(views.take(index + 1).drop_last() =~= views.take(index as int));
            assert(views.take(index + 1).last() == attributes@[index as int]@);
        }
        if !check_reserved_name(&attributes[index].name) {
            let copy = attributes[index].clone();
            custom.push(copy);
            proof {
                assert(attribute_views(custom@) =~= before.push(copy@));
            }
        }
        index = index + 1;
    }
    proof {
        assert(views.take(index as int) =~= views);
    }
    custom
}

/// The error for an attribute that a header must have but has not.
pub open spec fn missing(name: &'static str) -> Error {
    Error::MissingAttribute { name }
}

/// The error for an attribute of a header that is not what it must be.
pub open spec fn invalid(name: &'static str) -> Error {
    Error::InvalidAttribute { name }
}

/// The text of a type of layer, as a number: 0 for flat scan lines, 1
/// for flat tiles, 2 for deep scan lines, 3 for deep tiles.
pub open spec fn spec_kind_of(text: Seq<u8>) -> Option<int> {
    if text == ascii("scanlineimage") {
        Some(0)
    } else if text == ascii("tiledimage") {
        Some(1)
    } else if text == ascii("deepscanline") {
        Some(2)
    } else if text == ascii("deeptile") {
        Some(3)
    } else {
        None
    }
}

/// What the attributes of a header say of each field of the header, each
/// on its own: the value, or `None` where an attribute that need not be
/// there is not, or the error where the attribute is not there but must
/// be, or is not of the type that it must be of.
pub struct HeaderFields {
    pub channels: Result<Seq<ChannelView>, Error>,
    pub compression: Result<Compression, Error>,
    pub data_window: Result<I32Box2, Error>,
    pub display_window: Result<I32Box2, Error>,
    pub line_order: Result<LineOrder, Error>,
    pub pixel_aspect: Result<u32, Error>,
    pub screen_window_center: Result<Vec2<u32>, Error>,
    pub screen_window_width: Result<u32, Error>,
    pub tiles: Result<Option<TileDescription>, Error>,
    pub name: Result<Option<Seq<u8>>, Error>,
    pub kind: Result<Option<int>, Error>,
    pub version: Result<Option<i32>, Error>,
    pub max_samples: Result<Option<i32>, Error>,
    pub chunk_count: Result<Option<i32>, Error>,
}

/// The error for a text that names no type of layer.
pub open spec fn kind_error() -> Error {
    Error::InvalidContent {
        what: Value::Type("type"),
        required: Required::OneOf("scanlineimage,tiledimage,deepscanline,deeptile"),
    }
}

/// What the attributes say of each field of the header.
pub open spec fn header_fields(attributes: Seq<AttributeView>) -> HeaderFields {
    HeaderFields {
        channels: match find_attribute(attributes, ascii("channels")) {
            None => Err(missing("channels")),
            Some(AttributeValueView::ChannelList(channels)) => Ok(channels),
            Some(_) => Err(invalid("channels")),
        },
        compression: match find_attribute(attributes, ascii("compression")) {
            None => Err(missing("compression")),
            Some(AttributeValueView::Compression(compression)) => Ok(compression),
            Some(_) => Err(invalid("compression")),
        },
        data_window: match find_attribute(attributes, ascii("dataWindow")) {
            None => Err(missing("dataWindow")),
            Some(AttributeValueView::I32Box2(window)) => Ok(window),
            Some(_) => Err(invalid("dataWindow")),
        },
        display_window: match find_attribute(attributes, ascii("displayWindow")) {
            None => Err(missing("displayWindow")),
            Some(AttributeValueView::I32Box2(window)) => Ok(window),
            Some(_) => Err(invalid("displayWindow")),
        },
        line_order: match find_attribute(attributes, ascii("lineOrder")) {
            None => Err(missing("lineOrder")),
            Some(AttributeValueView::LineOrder(line_order)) => Ok(line_order),
            Some(_) => Err(invalid("lineOrder")),
        },
        pixel_aspect: match find_attribute(attributes, ascii("pixelAspectRatio")) {
            None => Err(missing("pixelAspectRatio")),
            Some(AttributeValueView::F32(aspect)) => Ok(aspect),
            Some(_) => Err(invalid("pixelAspectRatio")),
        },
        screen_window_center: match find_attribute(attributes, ascii("screenWindowCenter")) {
            None => Err(missing("screenWindowCenter")),
            Some(AttributeValueView::F32Vec2(x, y)) => Ok(Vec2(x, y)),
            Some(_) => Err(invalid("screenWindowCenter")),
        },
        screen_window_width: match find_attribute(attributes, ascii("screenWindowWidth")) {
            None => Err(missing("screenWindowWidth")),
            Some(AttributeValueView::F32(width)) => Ok(width),
            Some(_) => Err(invalid("screenWindowWidth")),
        },
        tiles: match find_attribute(attributes, ascii("tiles")) {
            None => Ok(None),
            Some(AttributeValueView::TileDescription(tiles)) => Ok(Some(tiles)),
            Some(_) => Err(invalid("tiles")),
        },
        name: match find_attribute(attributes, ascii("name")) {
            None => Ok(None),
            Some(AttributeValueView::Text(name)) => Ok(Some(name)),
            Some(_) => Err(invalid("name")),
        },
        kind: match find_attribute(attributes, ascii("type")) {
            None => Ok(None),
            Some(AttributeValueView::Text(kind)) => match spec_kind_of(kind) {
                Some(kind) => Ok(Some(kind)),
                None => Err(kind_error()),
            },
            Some(_) => Err(invalid("type")),
        },
        version: match find_attribute(attributes, ascii("version")) {
            None => Ok(None),
            Some(AttributeValueView::I32(version)) => Ok(Some(version)),
            Some(_) => Err(invalid("version")),
        },
        max_samples: match find_attribute(attributes, ascii("maxSamplesPerPixel")) {
            None => Ok(None),
            Some(AttributeValueView::I32(samples)) => Ok(Some(samples)),
            Some(_) => Err(invalid("maxSamplesPerPixel")),
        },
        chunk_count: match find_attribute(attributes, ascii("chunkCount")) {
            None => Ok(None),
            Some(AttributeValueView::I32(count)) => Ok(Some(count)),
            Some(_) => Err(invalid("chunkCount")),
        },
    }
}

/// Whether each name of a channel comes after the name in front of it.
pub open spec fn are_strictly_sorted(channels: Seq<ChannelView>) -> bool {
    forall|i: int|
        0 < i < channels.len() ==> precedes((#[trigger] channels[i - 1]).name, channels[i].name)
}

/// Whether each sample of each channel stands for exactly one pixel.
pub open spec fn are_fully_sampled(channels: Seq<ChannelView>) -> bool {
    forall|i: int|
        0 <= i < channels.len() ==> (#[trigger] channels[i]).x_sampling == 1
            && channels[i].y_sampling == 1
}

/// Whether each sample of each channel stands for at least one pixel along each axis.
pub open spec fn are_sampled(channels: Seq<ChannelView>) -> bool {
    forall|i: int|
        0 <= i < channels.len() ==> (#[trigger] channels[i]).x_sampling >= 1
            && channels[i].y_sampling >= 1
}

/// The error for a channel whose samples stand for more or fewer pixels than they may.
pub open spec fn sampling_error() -> Error {
    Error::InvalidContent {
        what: Value::Attribute("sampling"),
        required: Required::Exact("1 in layers of tiles and of deep data, else at least 1"),
    }
}

/// The first thing that is wrong with the fields that the attributes give,
/// for a file with the given requirements, if anything.
///
/// An attribute that must be there is missing or of the wrong type; a
/// window holds no pixel; the channels are not in the order of their
/// names, or two have the same name; the samples of a channel stand for
/// other than one pixel where that is not allowed; a layer is divided into
/// tiles in a file that says that no layer is, or is not where the file
/// or the type of the layer says that it is; a layer holds deep data in a
/// file that says that no layer does; there is no name, type or count of
/// blocks in a file of several layers or of deep data; the count of
/// blocks is not the one that follows from the other fields.
pub open spec fn header_error(fields: HeaderFields, requirements: Requirements) -> Option<Error> {
    match field_error(fields) {
        Some(e) => Some(e),
        None => consistency_error(fields, requirements),
    }
}

/// The error of the first field whose attribute is not there but must
/// be, or is not of the type that it must be of, if there is such a field.
pub open spec fn field_error(fields: HeaderFields) -> Option<Error> {
    if fields.channels is Err {
        Some(fields.channels->Err_0)
    } else if fields.compression is Err {
        Some(fields.compression->Err_0)
    } else if fields.data_window is Err {
        Some(fields.data_window->Err_0)
    } else if fields.display_window is Err {
        Some(fields.display_window->Err_0)
    } else if fields.line_order is Err {
        Some(fields.line_order->Err_0)
    } else if fields.pixel_aspect is Err {
        Some(fields.pixel_aspect->Err_0)
    } else if fields.screen_window_center is Err {
        Some(fields.screen_window_center->Err_0)
    } else if fields.screen_window_width is Err {
        Some(fields.screen_window_width->Err_0)
    } else if fields.tiles is Err {
        Some(fields.tiles->Err_0)
    } else if fields.name is Err {
        Some(fields.name->Err_0)
    } else if fields.kind is Err {
        Some(fields.kind->Err_0)
    } else if fields.version is Err {
        Some(fields.version->Err_0)
    } else if fields.max_samples is Err {
        Some(fields.max_samples->Err_0)
    } else if fields.chunk_count is Err {
        Some(fields.chunk_count->Err_0)
    } else {
        None
    }
}

/// Whether the fields say that the layer is divided into tiles.
pub open spec fn says_tiles(fields: HeaderFields) -> bool {
    fields.tiles->Ok_0 is Some
}

/// Whether the fields say that the layer holds deep data.
pub open spec fn says_deep(fields: HeaderFields) -> bool {
    fields.kind->Ok_0 matches Some(kind) && kind >= 2
}

/// How the fields say that the layer is divided into blocks.
pub open spec fn blocks_of(fields: HeaderFields) -> BlockDescription {
    match fields.tiles->Ok_0 {
        Some(tiles) => BlockDescription::Tiles(tiles),
        None => BlockDescription::ScanLines,
    }
}

/// The first thing that is wrong with fields that are all there and of
/// the right types, if anything.
pub open spec fn consistency_error(fields: HeaderFields, requirements: Requirements) -> Option<
    Error,
> {
    let kind = fields.kind->Ok_0;
    if !IntRect::is_box_of_rect(fields.data_window->Ok_0) {
        Some(invalid("dataWindow"))
    } else if !IntRect::is_box_of_rect(fields.display_window->Ok_0) {
        Some(invalid("displayWindow"))
    } else if !are_strictly_sorted(fields.channels->Ok_0) {
        Some(invalid("channels"))
    } else if !are_sampled(fields.channels->Ok_0) || ((says_tiles(fields) || says_deep(fields))
        && !are_fully_sampled(fields.channels->Ok_0)) {
        Some(sampling_error())
    } else if says_tiles(fields) && !requirements.has_tiles {
        Some(invalid("tiles"))
    } else if !says_tiles(fields) && ((requirements.has_tiles && !requirements.is_multipart) || (
    kind matches Some(k) && (k == 1 || k == 3))) {
        Some(missing("tiles"))
    } else if says_tiles(fields) && (kind matches Some(k) && (k == 0 || k == 2)) {
        Some(invalid("type"))
    } else if says_deep(fields) && !requirements.has_deep_data {
        Some(invalid("type"))
    } else if requirements.is_multipart && fields.name->Ok_0 is None {
        Some(missing("name"))
    } else if (requirements.is_multipart || requirements.has_deep_data) && kind is None {
        Some(missing("type"))
    } else if says_deep(fields) && fields.version->Ok_0 is None {
        Some(missing("version"))
    } else if says_deep(fields) && fields.max_samples->Ok_0 is None {
        Some(missing("maxSamplesPerPixel"))
    } else if fields.max_samples->Ok_0 matches Some(samples) && samples < 0 {
        Some(invalid("maxSamplesPerPixel"))
    } else if (requirements.is_multipart || requirements.has_deep_data)
        && fields.chunk_count->Ok_0 is None {
        Some(missing("chunkCount"))
    } else if blocks_of(fields) matches BlockDescription::Tiles(tiles) && (tiles.x_size == 0
        || tiles.y_size == 0) {
        Some(tile_size_error())
    } else if spec_chunk_count(
        fields.compression->Ok_0,
        IntRect::spec_from_box(fields.data_window->Ok_0).size,
        blocks_of(fields),
    ) > usize::MAX {
        Some(Error::InvalidSize)
    } else if fields.chunk_count->Ok_0 matches Some(count) && count != spec_chunk_count(
        fields.compression->Ok_0,
        IntRect::spec_from_box(fields.data_window->Ok_0).size,
        blocks_of(fields),
    ) {
        Some(invalid("chunkCount"))
    } else {
        None
    }
}

/// The header that the attributes give, where nothing is wrong with them.
pub open spec fn header_of(attributes: Seq<AttributeView>) -> HeaderView {
    let fields = header_fields(attributes);
    HeaderView {
        channels: fields.channels->Ok_0,
        compression: fields.compression->Ok_0,
        blocks: blocks_of(fields),
        line_order: fields.line_order->Ok_0,
        data_window: IntRect::spec_from_box(fields.data_window->Ok_0),
        display_window: IntRect::spec_from_box(fields.display_window->Ok_0),
        pixel_aspect: fields.pixel_aspect->Ok_0,
        screen_window_center: fields.screen_window_center->Ok_0,
        screen_window_width: fields.screen_window_width->Ok_0,
        name: fields.name->Ok_0,
        custom_attributes: custom_attributes(attributes),
        chunk_count: spec_chunk_count(
            fields.compression->Ok_0,
            IntRect::spec_from_box(fields.data_window->Ok_0).size,
            blocks_of(fields),
        ) as usize,
        deep: says_deep(fields),
        deep_data_version: fields.version->Ok_0,
        max_samples_per_pixel: match fields.max_samples->Ok_0 {
            Some(samples) => Some(samples as usize),
            None => None,
        },
    }
}

/// The header that the attributes give for a file with the given
/// requirements, or the first thing that is wrong with them.
pub open spec fn header_from_attributes_spec(
    attributes: Seq<AttributeView>,
    requirements: Requirements,
) -> Result<HeaderView, Error> {
    match header_error(header_fields(attributes), requirements) {
        Some(e) => Err(e),
        None => Ok(header_of(attributes)),
    }
}

/// The type of layer that a text names, as a number.
fn kind_of(text: &[u8]) -> (r: Option<u8>)
    ensures
        match r {
            Some(kind) => spec_kind_of(text@) == Some(kind as int),
            None => spec_kind_of(text@) is None,
        },
{
    if bytes_equal(text, scan_line_kind()) {
        Some(0)
    } else if bytes_equal(text, tile_kind()) {
        Some(1)
    } else if bytes_equal(text, deep_scan_line_kind()) {
        Some(2)
    } else if bytes_equal(text, deep_tile_kind()) {
        Some(3)
    } else {
        None
    }
}

/// The values that the attributes of a header give for the fields of the
/// header, where each attribute that must be there is, and is of the type
/// that it must be of.
struct Fields {
    channels: ChannelList,
    compression: Compression,
    data_window: I32Box2,
    display_window: I32Box2,
    line_order: LineOrder,
    pixel_aspect: u32,
    screen_window_center: Vec2<u32>,
    screen_window_width: u32,
    tiles: Option<TileDescription>,
    name: Option<Text>,
    kind: Option<u8>,
    version: Option<i32>,
    max_samples: Option<i32>,
    chunk_count: Option<i32>,
}

impl Fields {
    /// Whether these are the values that the fields hold.
    spec fn are(self, fields: HeaderFields) -> bool {
        &&& fields.channels == Ok::<Seq<ChannelView>, Error>(self.channels@)
        &&& fields.compression == Ok::<Compression, Error>(self.compression)
        &&& fields.data_window == Ok::<I32Box2, Error>(self.data_window)
        &&& fields.display_window == Ok::<I32Box2, Error>(self.display_window)
        &&& fields.line_order == Ok::<LineOrder, Error>(self.line_order)
        &&& fields.pixel_aspect == Ok::<u32, Error>(self.pixel_aspect)
        &&& fields.screen_window_center == Ok::<Vec2<u32>, Error>(self.screen_window_center)
        &&& fields.screen_window_width == Ok::<u32, Error>(self.screen_window_width)
        &&& fields.tiles == Ok::<Option<TileDescription>, Error>(self.tiles)
        &&& fields.name == Ok::<Option<Seq<u8>>, Error>(name_view(self.name))
        &&& fields.kind == Ok::<Option<int>, Error>(
            match self.kind {
                Some(kind) => Some(kind as int),
                None => None,
            },
        )
        &&& fields.version == Ok::<Option<i32>, Error>(self.version)
        &&& fields.max_samples == Ok::<Option<i32>, Error>(self.max_samples)
        &&& fields.chunk_count == Ok::<Option<i32>, Error>(self.chunk_count)
    }
}

/// The channels, the compression, the windows and the line order that
/// the attributes give.
fn read_layout_fields(attributes: &[Attribute]) -> (r: Result<
    (ChannelList, Compression, I32Box2, I32Box2, LineOrder),
    Error,
>)
    ensures
        ({
            let fields = header_fields(attribute_views(attributes@));
            if fields.channels is Err {
                r == Err::<(ChannelList, Compression, I32Box2, I32Box2, LineOrder), Error>(
                    fields.channels->Err_0,
                )
            } else if fields.compression is Err {
                r == Err::<(ChannelList, Compression, I32Box2, I32Box2, LineOrder), Error>(
                    fields.compression->Err_0,
                )
            } else if fields.data_window is Err {
                r == Err::<(ChannelList, Compression, I32Box2, I32Box2, LineOrder), Error>(
                    fields.data_window->Err_0,
                )
            } else if fields.display_window is Err {
                r == Err::<(ChannelList, Compression, I32Box2, I32Box2, LineOrder), Error>(
                    fields.display_window->Err_0,
                )
            } else if fields.line_order is Err {
                r == Err::<(ChannelList, Compression, I32Box2, I32Box2, LineOrder), Error>(
                    fields.line_order->Err_0,
                )
            } else {
                r matches Ok((channels, compression, data_window, display_window, line_order))
                    && fields.channels->Ok_0 == channels@ && fields.compression->Ok_0
                    == compression && fields.data_window->Ok_0 == data_window
                    && fields.display_window->Ok_0 == display_window && fields.line_order->Ok_0
                    == line_order
            }
        }),
{
    proof {
        reveal_strlit("channels");
        reveal_strlit("compression");
        reveal_strlit("dataWindow");
        reveal_strlit("displayWindow");
        reveal_strlit("lineOrder");
    }
    let channels = match find(attributes, "channels") {
        None => return Err(Error::MissingAttribute { name: "channels" }),
        Some(AttributeValue::ChannelList(channels)) => channels.clone(),
        Some(_) => return Err(Error::InvalidAttribute { name: "channels" }),
    };
    let compression = match find(attributes, "compression") {
        None => return Err(Error::MissingAttribute { name: "compression" }),
        Some(AttributeValue::Compression(compression)) => *compression,
        Some(_) => return Err(Error::InvalidAttribute { name: "compression" }),
    };
    let data_window = match find(attributes, "dataWindow") {
        None => return Err(Error::MissingAttribute { name: "dataWindow" }),
        Some(AttributeValue::I32Box2(window)) => *window,
        Some(_) => return Err(Error::InvalidAttribute { name: "dataWindow" }),
    };
    let display_window = match find(attributes, "displayWindow") {
        None => return Err(Error::MissingAttribute { name: "displayWindow" }),
        Some(AttributeValue::I32Box2(window)) => *window,
        Some(_) => return Err(Error::InvalidAttribute { name: "displayWindow" }),
    };
    let line_order = match find(attributes, "lineOrder") {
        None => return Err(Error::MissingAttribute { name: "lineOrder" }),
        Some(AttributeValue::LineOrder(line_order)) => *line_order,
        Some(_) => return Err(Error::InvalidAttribute { name: "lineOrder" }),
    };
    Ok((channels, compression, data_window, display_window, line_order))
}

/// The pixel aspect and the screen window that the attributes give.
fn read_view_fields(attributes: &[Attribute]) -> (r: Result<(u32, Vec2<u32>, u32), Error>)
    ensures
        ({
            let fields = header_fields(attribute_views(attributes@));
            if fields.pixel_aspect is Err {
                r == Err::<(u32, Vec2<u32>, u32), Error>(fields.pixel_aspect->Err_0)
            } else if fields.screen_window_center is Err {
                r == Err::<(u32, Vec2<u32>, u32), Error>(fields.screen_window_center->Err_0)
            } else if fields.screen_window_width is Err {
                r == Err::<(u32, Vec2<u32>, u32), Error>(fields.screen_window_width->Err_0)
            } else {
                r == Ok::<(u32, Vec2<u32>, u32), Error>(
                    (
                        fields.pixel_aspect->Ok_0,
                        fields.screen_window_center->Ok_0,
                        fields.screen_window_width->Ok_0,
                    ),
                )
            }
        }),
{
    proof {
        reveal_strlit("pixelAspectRatio");
        reveal_strlit("screenWindowCenter");
        reveal_strlit("screenWindowWidth");
    }
    let pixel_aspect = match find(attributes, "pixelAspectRatio") {
        None => return Err(Error::MissingAttribute { name: "pixelAspectRatio" }),
        Some(AttributeValue::F32(aspect)) => *aspect,
        Some(_) => return Err(Error::InvalidAttribute { name: "pixelAspectRatio" }),
    };
    let screen_window_center = match find(attributes, "screenWindowCenter") {
        None => return Err(Error::MissingAttribute { name: "screenWindowCenter" }),
        Some(AttributeValue::F32Vec2(x, y)) => Vec2(*x, *y),
        Some(_) => return Err(Error::InvalidAttribute { name: "screenWindowCenter" }),
    };
    let screen_window_width = match find(attributes, "screenWindowWidth") {
        None => return Err(Error::MissingAttribute { name: "screenWindowWidth" }),
        Some(AttributeValue::F32(width)) => *width,
        Some(_) => return Err(Error::InvalidAttribute { name: "screenWindowWidth" }),
    };
    Ok((pixel_aspect, screen_window_center, screen_window_width))
}

/// The tiles, the name and the type of the layer that the attributes give.
fn read_layer_fields(attributes: &[Attribute]) -> (r: Result<
    (Option<TileDescription>, Option<Text>, Option<u8>),
    Error,
>)
    ensures
        ({
            let fields = header_fields(attribute_views(attributes@));
            if fields.tiles is Err {
                r == Err::<(Option<TileDescription>, Option<Text>, Option<u8>), Error>(
                    fields.tiles->Err_0,
                )
            } else if fields.name is Err {
                r == Err::<(Option<TileDescription>, Option<Text>, Option<u8>), Error>(
                    fields.name->Err_0,
                )
            } else if fields.kind is Err {
                r == Err::<(Option<TileDescription>, Option<Text>, Option<u8>), Error>(
                    fields.kind->Err_0,
                )
            } else {
                r matches Ok((tiles, name, kind)) && fields.tiles->Ok_0 == tiles
                    && fields.name->Ok_0 == name_view(name) && fields.kind->Ok_0 == (match kind {
                    Some(kind) => Some(kind as int),
                    None => None::<int>,
                })
            }
        }),
{
    proof {
        reveal_strlit("tiles");
        reveal_strlit("name");
        reveal_strlit("type");
    }
    let tiles = match find(attributes, "tiles") {
        None => None,
        Some(AttributeValue::TileDescription(tiles)) => Some(*tiles),
        Some(_) => return Err(Error::InvalidAttribute { name: "tiles" }),
    };
    let name = match find(attributes, "name") {
        None => None,
        Some(AttributeValue::Text(name)) => Some(Text::from_bytes(name.to_text_bytes())),
        Some(_) => return Err(Error::InvalidAttribute { name: "name" }),
    };
    let kind = match find(attributes, "type") {
        None => None,
        Some(AttributeValue::Text(kind)) => match kind_of(kind.to_text_bytes()) {
            Some(kind) => Some(kind),
            None => return Err(
                Error::InvalidContent {
                    what: Value::Type("type"),
                    required: Required::OneOf("scanlineimage,tiledimage,deepscanline,deeptile"),
                },
            ),
        },
        Some(_) => return Err(Error::InvalidAttribute { name: "type" }),
    };
    Ok((tiles, name, kind))
}

/// The version of the deep data, the greatest number of samples in a
/// pixel and the count of blocks that the attributes give.
fn read_count_fields(attributes: &[Attribute]) -> (r: Result<
    (Option<i32>, Option<i32>, Option<i32>),
    Error,
>)
    ensures
        ({
            let fields = header_fields(attribute_views(attributes@));
            if fields.version is Err {
                r == Err::<(Option<i32>, Option<i32>, Option<i32>), Error>(fields.version->Err_0)
            } else if fields.max_samples is Err {
                r == Err::<(Option<i32>, Option<i32>, Option<i32>), Error>(
                    fields.max_samples->Err_0,
                )
            } else if fields.chunk_count is Err {
                r == Err::<(Option<i32>, Option<i32>, Option<i32>), Error>(
                    fields.chunk_count->Err_0,
                )
            } else {
                r == Ok::<(Option<i32>, Option<i32>, Option<i32>), Error>(
                    (fields.version->Ok_0, fields.max_samples->Ok_0, fields.chunk_count->Ok_0),
                )
            }
        }),
{
    proof {
        reveal_strlit("version");
        reveal_strlit("maxSamplesPerPixel");
        reveal_strlit("chunkCount");
    }
    let version = match find(attributes, "version") {
        None => None,
        Some(AttributeValue::I32(version)) => Some(*version),
        Some(_) => return Err(Error::InvalidAttribute { name: "version" }),
    };
    let max_samples = match find(attributes, "maxSamplesPerPixel") {
        None => None,
        Some(AttributeValue::I32(samples)) => Some(*samples),
        Some(_) => return Err(Error::InvalidAttribute { name: "maxSamplesPerPixel" }),
    };
    let chunk_count = match find(attributes, "chunkCount") {
        None => None,
        Some(AttributeValue::I32(count)) => Some(*count),
        Some(_) => return Err(Error::InvalidAttribute { name: "chunkCount" }),
    };
    Ok((version, max_samples, chunk_count))
}

/// The values that the attributes give for the fields of the header, or
/// the error of the first attribute that is missing or of the wrong type.
fn read_fields(attributes: &[Attribute]) -> (r: Result<Fields, Error>)
    ensures
        ({
            let fields = header_fields(attribute_views(attributes@));
            match r {
                Ok(values) => field_error(fields) is None && values.are(fields),
                Err(e) => field_error(fields) == Some(e),
            }
        }),
{
    let (channels, compression, data_window, display_window, line_order) = read_layout_fields(
        attributes,
    )?;
    let (pixel_aspect, screen_window_center, screen_window_width) = read_view_fields(attributes)?;
    let (tiles, name, kind) = read_layer_fields(attributes)?;
    let (version, max_samples, chunk_count) = read_count_fields(attributes)?;
    Ok(
        Fields {
            channels,
            compression,
            data_window,
            display_window,
            line_order,
            pixel_aspect,
            screen_window_center,
            screen_window_width,
            tiles,
            name,
            kind,
            version,
            max_samples,
            chunk_count,
        },
    )
}

/// Says whether each name of a channel comes after the name in front of it.
fn check_strictly_sorted(channels: &ChannelList) -> (r: bool)
    ensures
        r == are_strictly_sorted(channels@),
{
    let list = channels.as_slice();
    let mut index: usize = 1;
    while index < list.len()
        invariant
            1 <= index,
            list@.len() == channels@.len(),
            forall|i: int| 0 <= i < list@.len() ==> (#[trigger] list@[i])@ == channels@[i],
            forall|i: int|
                0 < i < index && i < list@.len() ==> precedes(
                    (#[trigger] channels@[i - 1]).name,
                    channels@[i].name,
                ),
        decreases list@.len() - index,
    {
        if !bytes_precede(list[index - 1].name.as_slice(), list[index].name.as_slice()) {
            assert(list@[index - 1]@ == channels@[index - 1]);
            assert(!precedes(channels@[index - 1].name, channels@[index as int].name));
            return false;
        }
        proof {
            assert(list@[index - 1]@ == channels@[index - 1]);
            assert(list@[index as int]@ == channels@[index as int]);
        }
        index = index + 1;
    }
    true
}

/// Says whether each sample of each channel stands for at least one pixel
/// along each axis, and whether each stands for exactly one pixel.
fn check_sampling(channels: &ChannelList) -> (r: (bool, bool))
    ensures
        r.0 == are_sampled(channels@),
        r.1 == are_fully_sampled(channels@),
{
    let list = channels.as_slice();
    let mut sampled = true;
    let mut fully = true;
    let mut index: usize = 0;
    while index < list.len()
        invariant
            index <= list@.len(),
            list@.len() == channels@.len(),
            forall|i: int| 0 <= i < list@.len() ==> (#[trigger] list@[i])@ == channels@[i],
            sampled == forall|i: int|
                0 <= i < index ==> (#[trigger] channels@[i]).x_sampling >= 1
                    && channels@[i].y_sampling >= 1,
            fully == forall|i: int|
                0 <= i < index ==> (#[trigger] channels@[i]).x_sampling == 1
                    && channels@[i].y_sampling == 1,
        decreases list@.len() - index,
    {
        let channel = &list[index];
        proof {
            assert(list@[index as int]@ == channels@[index as int]);
        }
        if channel.x_sampling < 1 || channel.y_sampling < 1 {
            sampled = false;
        }
        if channel.x_sampling != 1 || channel.y_sampling != 1 {
            fully = false;
        }
        index = index + 1;
    }
    (sampled, fully)
}

impl Header {
    /// The header that the attributes give for a file with the given
    /// requirements. Fails with the first thing that is wrong with the
    /// attributes: see `header_error`.
    pub fn from_attributes(attributes: &[Attribute], requirements: &Requirements) -> (r: Result<
        Header,
        Error,
    >)
        ensures
            match header_from_attributes_spec(attribute_views(attributes@), *requirements) {
                Ok(header) => r is Ok && r->Ok_0@ == header,
                Err(e) => r == Err::<Header, Error>(e),
            },
    {
        let values = read_fields(attributes)?;
        let ghost fields = header_fields(attribute_views(attributes@));
        let data_window = match IntRect::from_box(values.data_window) {
            Ok(window) => window,
            Err(_) => return Err(Error::InvalidAttribute { name: "dataWindow" }),
        };
        let display_window = match IntRect::from_box(values.display_window) {
            Ok(window) => window,
            Err(_) => return Err(Error::InvalidAttribute { name: "displayWindow" }),
        };
        if !check_strictly_sorted(&values.channels) {
            return Err(Error::InvalidAttribute { name: "channels" });
        }
        let has_tiles = values.tiles.is_some();
        let deep = match values.kind {
            Some(kind) => kind >= 2,
            None => false,
        };
        let (sampled, fully_sampled) = check_sampling(&values.channels);
        if !sampled || ((has_tiles || deep) && !fully_sampled) {
            return Err(
                Error::InvalidContent {
                    what: Value::Attribute("sampling"),
                    required: Required::Exact(
                        "1 in layers of tiles and of deep data, else at least 1",
                    ),
                },
            );
        }
        let tile_kind = match values.kind {
            Some(kind) => kind == 1 || kind == 3,
            None => false,
        };
        let scan_line_kind = match values.kind {
            Some(kind) => kind == 0 || kind == 2,
            None => false,
        };
        if has_tiles && !requirements.has_tiles {
            return Err(Error::InvalidAttribute { name: "tiles" });
        }
        if !has_tiles && ((requirements.has_tiles && !requirements.is_multipart) || tile_kind) {
            return Err(Error::MissingAttribute { name: "tiles" });
        }
        if has_tiles && scan_line_kind {
            return Err(Error::InvalidAttribute { name: "type" });
        }
        if deep && !requirements.has_deep_data {
            return Err(Error::InvalidAttribute { name: "type" });
        }
        if requirements.is_multipart && values.name.is_none() {
            return Err(Error::MissingAttribute { name: "name" });
        }
        if (requirements.is_multipart || requirements.has_deep_data) && values.kind.is_none() {
            return Err(Error::MissingAttribute { name: "type" });
        }
        if deep && values.version.is_none() {
            return Err(Error::MissingAttribute { name: "version" });
        }
        if deep && values.max_samples.is_none() {
            return Err(Error::MissingAttribute { name: "maxSamplesPerPixel" });
        }
        let max_samples_per_pixel = match values.max_samples {
            Some(samples) => {
                if samples < 0 {
                    return Err(Error::InvalidAttribute { name: "maxSamplesPerPixel" });
                }
                Some(samples as usize)
            },
            None => None,
        };
        if (requirements.is_multipart || requirements.has_deep_data)
            && values.chunk_count.is_none() {
            return Err(Error::MissingAttribute { name: "chunkCount" });
        }
        let blocks = match values.tiles {
            Some(tiles) => BlockDescription::Tiles(tiles),
            None => BlockDescription::ScanLines,
        };
        let chunk_count = compute_chunk_count(values.compression, data_window.size, blocks)?;
        match values.chunk_count {
            Some(count) => {
                if count < 0 || count as usize != chunk_count {
                    return Err(Error::InvalidAttribute { name: "chunkCount" });
                }
            },
            None => {},
        }
        Ok(
            Header {
                channels: values.channels,
                compression: values.compression,
                blocks,
                line_order: values.line_order,
                data_window,
                display_window,
                pixel_aspect: values.pixel_aspect,
                screen_window_center: values.screen_window_center,
                screen_window_width: values.screen_window_width,
                name: values.name,
                custom_attributes: collect_custom_attributes(attributes),
                chunk_count,
                deep,
                deep_data_version: values.version,
                max_samples_per_pixel,
            },
        )
    }

    /// Reads the header of a layer of a file with the given requirements. Attributes
    /// of a type that is not known are passed over and returned beside
    /// the header where `skip_unknown` is set, and are an error where it is not.
    pub fn read(read: &mut ByteReader, requirements: &Requirements, skip_unknown: bool) -> (r:
        Result<(Header, Vec<UnknownAttribute>), Error>)
        ensures
            final(read).source() == old(read).source(),
            match Header::read_spec(old(read).remaining(), *requirements, skip_unknown) {
                Ok(((header, unknown), rest)) => r is Ok && r->Ok_0.0@ == header && unknown_views(
                    r->Ok_0.1@,
                ) == unknown && final(read).remaining() == rest,
                Err(e) => r == Err::<(Header, Vec<UnknownAttribute>), Error>(e),
            },
    {
        reveal(Header::read_spec);
        let attributes = read_attributes(read, skip_unknown)?;
        let header = Header::from_attributes(attributes.known.as_slice(), requirements)?;
        Ok((header, attributes.unknown))
    }

    /// Reading a header: its attributes are read, and give the header.
    #[verifier::opaque]
    pub open spec fn read_spec(s: Seq<u8>, requirements: Requirements, skip_unknown: bool)
        -> Parsed<(HeaderView, Seq<UnknownAttributeView>)> {
        match read_attributes_spec(s, skip_unknown) {
            Err(e) => Err(e),
            Ok((attributes, rest)) => match header_from_attributes_spec(
                attributes.known,
                requirements,
            ) {
                Err(e) => Err(e),
                Ok(header) => Ok(((header, attributes.unknown), rest)),
            },
        }
    }
}

/// The attribute of the given name and value.
pub open spec fn attribute(name: &str, value: AttributeValueView) -> AttributeView {
    AttributeView { name: ascii(name), value }
}

/// The text that names the type of a layer.
pub open spec fn spec_kind_text(deep: bool, tiles: bool) -> Seq<u8> {
    if deep {
        if tiles {
            ascii("deeptile")
        } else {
            ascii("deepscanline")
        }
    } else {
        if tiles {
            ascii("tiledimage")
        } else {
            ascii("scanlineimage")
        }
    }
}

/// The bytes of the attributes one after another.
pub open spec fn attributes_bytes(attributes: Seq<AttributeView>) -> Seq<u8>
    decreases attributes.len(),
{
    if attributes.len() == 0 {
        Seq::empty()
    } else {
        attributes_bytes(attributes.drop_last()) + attributes.last().bytes()
    }
}

/// The first thing that is wrong with one of the attributes, if anything.
pub open spec fn validate_attributes(attributes: Seq<AttributeView>, long_names: bool) -> Result<
    (),
    Error,
>
    decreases attributes.len(),
{
    if attributes.len() == 0 {
        Ok(())
    } else {
        match validate_attributes(attributes.drop_last(), long_names) {
            Err(e) => Err(e),
            Ok(_) => attributes.last().validate(long_names),
        }
    }
}

/// Whether one of the attributes has the name of an attribute that stands
/// for a field of the header.
pub open spec fn has_reserved_name(attributes: Seq<AttributeView>) -> bool {
    exists|i: int| 0 <= i < attributes.len() && is_reserved_name((#[trigger] attributes[i]).name)
}

impl HeaderView {
    /// Whether a header of a file with the given requirements says the
    /// type of its layer and the count of its blocks.
    pub open spec fn says_kind(requirements: Requirements) -> bool {
        requirements.is_multipart || requirements.has_deep_data
    }

    /// The attributes that stand for fields of the header that need not be there.
    pub open spec fn optional_attributes(self, requirements: Requirements) -> Seq<AttributeView> {
        (match self.blocks {
            BlockDescription::Tiles(tiles) => seq![
                attribute("tiles", AttributeValueView::TileDescription(tiles)),
            ],
            BlockDescription::ScanLines => Seq::empty(),
        }) + (match self.name {
            Some(name) => seq![attribute("name", AttributeValueView::Text(name))],
            None => Seq::empty(),
        }) + (if HeaderView::says_kind(requirements) {
            seq![
                attribute(
                    "type",
                    AttributeValueView::Text(spec_kind_text(self.deep, self.blocks is Tiles)),
                ),
                attribute("chunkCount", AttributeValueView::I32(self.chunk_count as i32)),
            ]
        } else {
            Seq::empty()
        }) + (match self.deep_data_version {
            Some(version) => seq![attribute("version", AttributeValueView::I32(version))],
            None => Seq::empty(),
        }) + (match self.max_samples_per_pixel {
            Some(samples) => seq![
                attribute("maxSamplesPerPixel", AttributeValueView::I32(samples as i32)),
            ],
            None => Seq::empty(),
        })
    }

    /// The attributes that stand for fields of the header that must be there.
    pub open spec fn required_attributes(self) -> Seq<AttributeView> {
        seq![
            attribute("channels", AttributeValueView::ChannelList(self.channels)),
            attribute("compression", AttributeValueView::Compression(self.compression)),
            attribute("dataWindow", AttributeValueView::I32Box2(self.data_window.spec_to_box())),
            attribute(
                "displayWindow",
                AttributeValueView::I32Box2(self.display_window.spec_to_box()),
            ),
            attribute("lineOrder", AttributeValueView::LineOrder(self.line_order)),
            attribute("pixelAspectRatio", AttributeValueView::F32(self.pixel_aspect)),
            attribute(
                "screenWindowCenter",
                AttributeValueView::F32Vec2(
                    self.screen_window_center.0,
                    self.screen_window_center.1,
                ),
            ),
            attribute("screenWindowWidth", AttributeValueView::F32(self.screen_window_width)),
        ]
    }

    /// The attributes that the header is written as, in their order.
    pub open spec fn attributes(self, requirements: Requirements) -> Seq<AttributeView> {
        self.optional_attributes(requirements) + self.required_attributes()
            + self.custom_attributes
    }

    /// The bytes of the header: its attributes and a zero byte.
    pub open spec fn bytes(self, requirements: Requirements) -> Seq<u8> {
        attributes_bytes(self.attributes(requirements)).push(0u8)
    }

    /// The first thing that is wrong with the fields of the header, for a
    /// file with the given requirements, if anything.
    pub open spec fn validate_fields(self, requirements: Requirements) -> Result<(), Error> {
        if !self.data_window.fits_box() {
            Err(IntRect::box_error())
        } else if !self.display_window.fits_box() {
            Err(IntRect::box_error())
        } else if !are_strictly_sorted(self.channels) {
            Err(invalid("channels"))
        } else if !are_sampled(self.channels) || ((self.blocks is Tiles || self.deep)
            && !are_fully_sampled(self.channels)) {
            Err(sampling_error())
        } else if self.blocks is Tiles && !requirements.has_tiles {
            Err(invalid("tiles"))
        } else if self.blocks is ScanLines && requirements.has_tiles
            && !requirements.is_multipart {
            Err(missing("tiles"))
        } else if self.deep && !requirements.has_deep_data {
            Err(invalid("type"))
        } else if requirements.is_multipart && self.name is None {
            Err(missing("name"))
        } else if self.name matches Some(name) && validate_text(
            name,
            Some(requirements.has_long_names),
        ) is Err {
            Err(invalid("name"))
        } else if self.deep && self.deep_data_version is None {
            Err(missing("version"))
        } else if self.deep && self.max_samples_per_pixel is None {
            Err(missing("maxSamplesPerPixel"))
        } else if self.max_samples_per_pixel matches Some(samples) && samples > i32::MAX {
            Err(invalid("maxSamplesPerPixel"))
        } else if self.blocks matches BlockDescription::Tiles(tiles) && (tiles.x_size == 0
            || tiles.y_size == 0) {
            Err(tile_size_error())
        } else if spec_chunk_count(self.compression, self.data_window.size, self.blocks)
            > usize::MAX {
            Err(Error::InvalidSize)
        } else if self.chunk_count != spec_chunk_count(
            self.compression,
            self.data_window.size,
            self.blocks,
        ) {
            Err(invalid("chunkCount"))
        } else if HeaderView::says_kind(requirements) && self.chunk_count > i32::MAX {
            Err(Error::InvalidSize)
        } else if has_reserved_name(self.custom_attributes) {
            Err(invalid("custom attribute"))
        } else {
            Ok(())
        }
    }

    /// The first thing that is wrong with the header, for a file with the
    /// given requirements, if anything: with its fields, or with one of
    /// the attributes that it is written as.
    pub open spec fn validate(self, requirements: Requirements) -> Result<(), Error> {
        match self.validate_fields(requirements) {
            Err(e) => Err(e),
            Ok(_) => validate_attributes(
                self.attributes(requirements),
                requirements.has_long_names,
            ),
        }
    }
}

/// The attribute of the given name and value.
fn named(name: &str, value: AttributeValue) -> (r: Attribute)
    requires
        vstd::string::is_ascii(name),
    ensures
        r@ == attribute(name, value@),
{
    Attribute { name: Text::from_bytes(ascii_bytes(name)), value }
}

/// The text that names the type of a layer.
fn kind_text(deep: bool, tiles: bool) -> (r: ParsedText)
    ensures
        r@ == spec_kind_text(deep, tiles),
{
    if deep {
        if tiles {
            ParsedText::DeepTile
        } else {
            ParsedText::DeepScanLine
        }
    } else {
        if tiles {
            ParsedText::Tile
        } else {
            ParsedText::ScanLine
        }
    }
}

impl Header {
    /// The attributes that stand for fields of the header that need not be there.
    fn optional_attributes(&self, requirements: &Requirements) -> (r: Vec<Attribute>)
        requires
            self@.validate_fields(*requirements) is Ok,
        ensures
            attribute_views(r@) == self@.optional_attributes(*requirements),
    {
        proof {
            reveal_strlit("tiles");
            reveal_strlit("name");
            reveal_strlit("type");
            reveal_strlit("chunkCount");
            reveal_strlit("version");
            reveal_strlit("maxSamplesPerPixel");
        }
        let mut attributes: Vec<Attribute> = Vec::new();
        let ghost mut views: Seq<AttributeView> = Seq::empty();
        proof {
            assert(attribute_views(attributes@) =~= views);
        }
        match self.blocks {
            BlockDescription::Tiles(tiles) => {
                attributes.push(named("tiles", AttributeValue::TileDescription(tiles)));
                proof {
                    views = views + seq![
                        attribute("tiles", AttributeValueView::TileDescription(tiles)),
                    ];
                    assert(attribute_views(attributes@) =~= views);
                }
            },
            BlockDescription::ScanLines => {
                proof {
                    views = views + Seq::<AttributeView>::empty();
                    assert(attribute_views(attributes@) =~= views);
                }
            },
        }
        match &self.name {
            Some(name) => {
                attributes.push(
                    named("name", AttributeValue::Text(ParsedText::Arbitrary(name.clone()))),
                );
                proof {
                    views = views + seq![attribute("name", AttributeValueView::Text(name@))];
                    assert(attribute_views(attributes@) =~= views);
                }
            },
            None => {
                proof {
                    views = views + Seq::<AttributeView>::empty();
                    assert(attribute_views(attributes@) =~= views);
                }
            },
        }
        if requirements.is_multipart || requirements.has_deep_data {
            let tiles = self.blocks.has_tiles();
            attributes.push(named("type", AttributeValue::Text(kind_text(self.deep, tiles))));
            attributes.push(named("chunkCount", AttributeValue::I32(self.chunk_count as i32)));
            proof {
                views = views + seq![
                    attribute(
                        "type",
                        AttributeValueView::Text(spec_kind_text(self.deep, self.blocks is Tiles)),
                    ),
                    attribute("chunkCount", AttributeValueView::I32(self.chunk_count as i32)),
                ];
                assert(attribute_views(attributes@) =~= views);
            }
        } else {
            proof {
                views = views + Seq::<AttributeView>::empty();
                assert(attribute_views(attributes@) =~= views);
            }
        }
        match self.deep_data_version {
            Some(version) => {
                attributes.push(named("version", AttributeValue::I32(version)));
                proof {
                    views = views + seq![attribute("version", AttributeValueView::I32(version))];
                    assert(attribute_views(attributes@) =~= views);
                }
            },
            None => {
                proof {
                    views = views + Seq::<AttributeView>::empty();
                    assert(attribute_views(attributes@) =~= views);
                }
            },
        }
        match self.max_samples_per_pixel {
            Some(samples) => {
                attributes.push(named("maxSamplesPerPixel", AttributeValue::I32(samples as i32)));
                proof {
                    views = views + seq![
                        attribute("maxSamplesPerPixel", AttributeValueView::I32(samples as i32)),
                    ];
                    assert(attribute_views(attributes@) =~= views);
                }
            },
            None => {
                proof {
                    views = views + Seq::<AttributeView>::empty();
                    assert(attribute_views(attributes@) =~= views);
                }
            },
        }
        attributes
    }

    /// Appends the attributes that stand for fields of the header that must be there.
    fn push_required_attributes(&self, attributes: &mut Vec<Attribute>)
        requires
            self@.data_window.fits_box(),
            self@.display_window.fits_box(),
        ensures
            attribute_views(final(attributes)@) == attribute_views(old(attributes)@)
                + self@.required_attributes(),
    {
        proof {
            reveal_strlit("channels");
            reveal_strlit("compression");
            reveal_strlit("dataWindow");
            reveal_strlit("displayWindow");
            reveal_strlit("lineOrder");
            reveal_strlit("pixelAspectRatio");
            reveal_strlit("screenWindowCenter");
            reveal_strlit("screenWindowWidth");
        }
        let data_window = match self.data_window.to_box() {
            Ok(window) => window,
            Err(_) => I32Box2 { x_min: 0, y_min: 0, x_max: 0, y_max: 0 },
        };
        let display_window = match self.display_window.to_box() {
            Ok(window) => window,
            Err(_) => I32Box2 { x_min: 0, y_min: 0, x_max: 0, y_max: 0 },
        };
        attributes.push(named("channels", AttributeValue::ChannelList(self.channels.clone())));
        attributes.push(named("compression", AttributeValue::Compression(self.compression)));
        attributes.push(named("dataWindow", AttributeValue::I32Box2(data_window)));
        attributes.push(named("displayWindow", AttributeValue::I32Box2(display_window)));
        attributes.push(named("lineOrder", AttributeValue::LineOrder(self.line_order)));
        attributes.push(named("pixelAspectRatio", AttributeValue::F32(self.pixel_aspect)));
        attributes.push(
            named(
                "screenWindowCenter",
                AttributeValue::F32Vec2(self.screen_window_center.0, self.screen_window_center.1),
            ),
        );
        attributes.push(named("screenWindowWidth", AttributeValue::F32(self.screen_window_width)));
        assert(attribute_views(attributes@) =~= attribute_views(old(attributes)@)
            + self@.required_attributes());
    }

    /// The attributes that the header is written as, in their order.
    fn to_attributes(&self, requirements: &Requirements) -> (r: Vec<Attribute>)
        requires
            self@.validate_fields(*requirements) is Ok,
        ensures
            attribute_views(r@) == self@.attributes(*requirements),
    {
        let mut attributes = self.optional_attributes(requirements);
        self.push_required_attributes(&mut attributes);
        let ghost before = attribute_views(attributes@);
        let mut index: usize = 0;
        while index < self.custom_attributes.len()
            invariant
                index <= self.custom_attributes@.len(),
                attribute_views(attributes@) == before + attribute_views(
                    self.custom_attributes@,
                ).take(index as int),
            decreases self.custom_attributes@.len() - index,
        {
            let ghost views = attribute_views(attributes@);
            let copy = self.custom_attributes[index].clone();
            attributes.push(copy);
            index = index + 1;
            proof {
                assert(attribute_views(attributes@) =~= views.push(copy@));
                assert(attribute_views(self.custom_attributes@).take(index as int)
                    =~= attribute_views(self.custom_attributes@).take(index - 1).push(copy@));
                assert(attribute_views(attributes@) =~= before + attribute_views(
                    self.custom_attributes@,
                ).take(index as int));
            }
        }
        proof {
            assert(attribute_views(self.custom_attributes@).take(index as int) =~= attribute_views(
                self.custom_attributes@,
            ));
        }
        attributes
    }

    /// Says whether an attribute has the name of an attribute that stands
    /// for a field of the header.
    fn check_reserved_names(attributes: &[Attribute]) -> (r: bool)
        ensures
            r == has_reserved_name(attribute_views(attributes@)),
    {
        let mut index: usize = 0;
        while index < attributes.len()
            invariant
                index <= attributes@.len(),
                forall|i: int|
                    0 <= i < index ==> !is_reserved_name(
                        (#[trigger] attribute_views(attributes@)[i]).name,
                    ),
            decreases attributes@.len() - index,
        {
            if check_reserved_name(&attributes[index].name) {
                assert(is_reserved_name(attribute_views(attributes@)[index as int].name));
                return true;
            }
            index = index + 1;
        }
        false
    }

    /// Says what is wrong with the fields of the header, if anything.
    fn validate_fields(&self, requirements: &Requirements) -> (r: Result<(), Error>)
        ensures
            r == self@.validate_fields(*requirements),
    {
        if self.data_window.to_box().is_err() {
            return Err(
                Error::InvalidContent {
                    what: Value::Attribute("box2i"),
                    required: Required::Exact("at least one pixel and coordinates of 32 bits"),
                },
            );
        }
        if self.display_window.to_box().is_err() {
            return Err(
                Error::InvalidContent {
                    what: Value::Attribute("box2i"),
                    required: Required::Exact("at least one pixel and coordinates of 32 bits"),
                },
            );
        }
        if !check_strictly_sorted(&self.channels) {
            return Err(Error::InvalidAttribute { name: "channels" });
        }
        let has_tiles = self.blocks.has_tiles();
        let (sampled, fully_sampled) = check_sampling(&self.channels);
        if !sampled || ((has_tiles || self.deep) && !fully_sampled) {
            return Err(
                Error::InvalidContent {
                    what: Value::Attribute("sampling"),
                    required: Required::Exact(
                        "1 in layers of tiles and of deep data, else at least 1",
                    ),
                },
            );
        }
        if has_tiles && !requirements.has_tiles {
            return Err(Error::InvalidAttribute { name: "tiles" });
        }
        if !has_tiles && requirements.has_tiles && !requirements.is_multipart {
            return Err(Error::MissingAttribute { name: "tiles" });
        }
        if self.deep && !requirements.has_deep_data {
            return Err(Error::InvalidAttribute { name: "type" });
        }
        if requirements.is_multipart && self.name.is_none() {
            return Err(Error::MissingAttribute { name: "name" });
        }
        match &self.name {
            Some(name) => {
                if name.validate(Some(requirements.has_long_names)).is_err() {
                    return Err(Error::InvalidAttribute { name: "name" });
                }
            },
            None => {},
        }
        if self.deep && self.deep_data_version.is_none() {
            return Err(Error::MissingAttribute { name: "version" });
        }
        if self.deep && self.max_samples_per_pixel.is_none() {
            return Err(Error::MissingAttribute { name: "maxSamplesPerPixel" });
        }
        match self.max_samples_per_pixel {
            Some(samples) => {
                if samples > i32::MAX as usize {
                    return Err(Error::InvalidAttribute { name: "maxSamplesPerPixel" });
                }
            },
            None => {},
        }
        let chunk_count = compute_chunk_count(self.compression, self.data_window.size, self.blocks)?;
        if self.chunk_count != chunk_count {
            return Err(Error::InvalidAttribute { name: "chunkCount" });
        }
        if (requirements.is_multipart || requirements.has_deep_data) && self.chunk_count
            > i32::MAX as usize {
            return Err(Error::InvalidSize);
        }
        if Header::check_reserved_names(self.custom_attributes.as_slice()) {
            return Err(Error::InvalidAttribute { name: "custom attribute" });
        }
        Ok(())
    }

    /// Says what is wrong with the first attribute that is not valid, if any is not.
    fn validate_attributes(attributes: &[Attribute], long_names: bool) -> (r: Result<(), Error>)
        ensures
            r == validate_attributes(attribute_views(attributes@), long_names),
    {
        let ghost views = attribute_views(attributes@);
        let mut index: usize = 0;
        proof {
            assert(views.take(0) =~= Seq::<AttributeView>::empty());
        }
        while index < attributes.len()
            invariant
                index <= attributes@.len(),
                views == attribute_views(attributes@),
                validate_attributes(views.take(index as int), long_names) is Ok,
            decreases attributes@.len() - index,
        {
            proof {
                assert(views.take(index + 1).drop_last() =~= views.take(index as int));
                assert(views.take(index + 1).last() == attributes@[index as int]@);
                lemma_validate_attributes_prefix(views, long_names, index + 1);
            }
            attributes[index].validate(long_names)?;
            index = index + 1;
        }
        proof {
            assert(views.take(index as int) =~= views);
        }
        Ok(())
    }

    /// Says what is wrong with the header, for a file with the given
    /// requirements, if anything.
    pub fn validate(&self, requirements: &Requirements) -> (r: Result<(), Error>)
        ensures
            r == self@.validate(*requirements),
    {
        self.validate_fields(requirements)?;
        let attributes = self.to_attributes(requirements);
        Header::validate_attributes(attributes.as_slice(), requirements.has_long_names)
    }

    /// Appends the header, if it is valid for a file with the given requirements.
    pub fn write(&self, write: &mut Vec<u8>, requirements: &Requirements) -> (r: Result<(), Error>)
        ensures
            r == self@.validate(*requirements),
            final(write)@ == if r is Ok {
                old(write)@ + self@.bytes(*requirements)
            } else {
                old(write)@
            },
    {
        self.validate_fields(requirements)?;
        let attributes = self.to_attributes(requirements);
        Header::validate_attributes(attributes.as_slice(), requirements.has_long_names)?;
        let ghost views = attribute_views(attributes@);
        let mut index: usize = 0;
        proof {
            assert(views.take(0) =~= Seq::<AttributeView>::empty());
            assert(write@ =~= old(write)@ + attributes_bytes(views.take(0)));
        }
        while index < attributes.len()
            invariant
                index <= attributes@.len(),
                views == attribute_views(attributes@),
                validate_attributes(views, requirements.has_long_names) is Ok,
                write@ == old(write)@ + attributes_bytes(views.take(index as int)),
            decreases attributes@.len() - index,
        {
            proof {
                assert(views.take(index + 1).drop_last() =~= views.take(index as int));
                assert(views.take(index + 1).last() == attributes@[index as int]@);
                lemma_validate_attributes_prefix(
                    views,
                    requirements.has_long_names,
                    index + 1,
                );
            }
            let result = attributes[index].write(write, requirements.has_long_names);
            assert(result is Ok);
            index = index + 1;
            assert(write@ =~= old(write)@ + attributes_bytes(views.take(index as int)));
        }
        SequenceEnd::write(write);
        proof {
            assert(views.take(index as int) =~= views);
            assert(write@ =~= old(write)@ + self@.bytes(*requirements));
        }
        Ok(())
    }
}

/// What is wrong with one of the first attributes is what is wrong with
/// the attributes, and where nothing is wrong with the attributes nothing
/// is wrong with any of the first.
pub proof fn lemma_validate_attributes_prefix(
    attributes: Seq<AttributeView>,
    long_names: bool,
    count: int,
)
    requires
        0 <= count <= attributes.len(),
    ensures
        validate_attributes(attributes.take(count), long_names) is Err ==> validate_attributes(
            attributes,
            long_names,
        ) == validate_attributes(attributes.take(count), long_names),
    decreases attributes.len() - count,
{
    if count < attributes.len() {
        lemma_validate_attributes_prefix(attributes, long_names, count + 1);
        assert(attributes.take(count + 1).drop_last() =~= attributes.take(count));
    } else {
        assert(attributes.take(count) =~= attributes);
    }
}

/// The views of the headers of a vector.
pub open spec fn header_views(headers: Seq<Header>) -> Seq<HeaderView> {
    Seq::new(headers.len(), |i: int| headers[i]@)
}

/// The bytes of the headers one after another.
pub open spec fn headers_bytes(headers: Seq<HeaderView>, requirements: Requirements) -> Seq<u8>
    decreases headers.len(),
{
    if headers.len() == 0 {
        Seq::empty()
    } else {
        headers_bytes(headers.drop_last(), requirements) + headers.last().bytes(requirements)
    }
}

/// The first thing that is wrong with one of the headers, if anything.
pub open spec fn validate_headers(headers: Seq<HeaderView>, requirements: Requirements) -> Result<
    (),
    Error,
>
    decreases headers.len(),
{
    if headers.len() == 0 {
        Ok(())
    } else {
        match validate_headers(headers.drop_last(), requirements) {
            Err(e) => Err(e),
            Ok(_) => headers.last().validate(requirements),
        }
    }
}

/// What is wrong with one of the first headers is what is wrong with the headers.
pub proof fn lemma_validate_headers_prefix(
    headers: Seq<HeaderView>,
    requirements: Requirements,
    count: int,
)
    requires
        0 <= count <= headers.len(),
    ensures
        validate_headers(headers.take(count), requirements) is Err ==> validate_headers(
            headers,
            requirements,
        ) == validate_headers(headers.take(count), requirements),
    decreases headers.len() - count,
{
    if count < headers.len() {
        lemma_validate_headers_prefix(headers, requirements, count + 1);
        assert(headers.take(count + 1).drop_last() =~= headers.take(count));
    } else {
        assert(headers.take(count) =~= headers);
    }
}

/// The error for a file whose number of layers is not one that its
/// requirements allow.
pub open spec fn layer_count_error() -> Error {
    Error::InvalidContent {
        what: Value::Attribute("headers"),
        required: Required::Exact("one header, or one or more in a file of several layers"),
    }
}

/// What the headers of a file hold, with the attributes of unknown types
/// that were passed over in each.
pub struct HeadersView {
    pub headers: Seq<HeaderView>,
    pub unknown: Seq<Seq<UnknownAttributeView>>,
}

/// A result with the headers of `head` put in front of those read.
pub open spec fn after_headers(head: HeadersView, tail: Parsed<HeadersView>) -> Parsed<
    HeadersView,
> {
    match tail {
        Ok((more, rest)) => Ok(
            (
                HeadersView {
                    headers: head.headers + more.headers,
                    unknown: head.unknown + more.unknown,
                },
                rest,
            ),
        ),
        Err(e) => Err(e),
    }
}

/// Reading the headers of a file of several layers: header after header,
/// up to a zero byte where a header would start. There must be one header
/// at least.
pub open spec fn read_headers_spec(
    s: Seq<u8>,
    requirements: Requirements,
    skip_unknown: bool,
    first: bool,
) -> Parsed<HeadersView>
    decreases s.len(),
{
    if s.len() == 0 {
        Err(Error::Io)
    } else if s[0] == 0 && !first {
        Ok((HeadersView { headers: Seq::empty(), unknown: Seq::empty() }, s.skip(1)))
    } else {
        match Header::read_spec(s, requirements, skip_unknown) {
            Err(e) => Err(e),
            Ok(((header, unknown), rest)) => if rest.len() < s.len() {
                after_headers(
                    HeadersView { headers: seq![header], unknown: seq![unknown] },
                    read_headers_spec(rest, requirements, skip_unknown, false),
                )
            } else {
                Err(Error::Io)
            },
        }
    }
}

/// What a file holds before its tables of offsets.
pub struct MetaDataView {
    pub requirements: Requirements,
    pub headers: Seq<HeaderView>,
}

impl View for MetaData {
    type V = MetaDataView;

    open spec fn view(&self) -> MetaDataView {
        MetaDataView { requirements: self.requirements, headers: header_views(self.headers@) }
    }
}

impl MetaDataView {
    /// The first thing that is wrong with the meta data, if anything:
    /// the version is not supported, the number of headers is not one that
    /// the requirements allow, or something is wrong with a header.
    pub open spec fn validate(self) -> Result<(), Error> {
        if self.requirements.file_format_version != 2 {
            Err(Error::UnsupportedVersion)
        } else if self.headers.len() == 0 || (!self.requirements.is_multipart
            && self.headers.len() != 1) {
            Err(layer_count_error())
        } else {
            validate_headers(self.headers, self.requirements)
        }
    }

    /// The bytes of the meta data: the magic number, the requirements,
    /// the headers, and, in a file of several layers, a zero byte.
    pub open spec fn bytes(self) -> Seq<u8> {
        magic_number_bytes() + self.requirements.bytes() + headers_bytes(
            self.headers,
            self.requirements,
        ) + (if self.requirements.is_multipart {
            seq![0u8]
        } else {
            Seq::empty()
        })
    }

    /// Reading the meta data of a file.
    pub open spec fn read_spec(s: Seq<u8>, skip_unknown: bool) -> Parsed<
        (MetaDataView, Seq<Seq<UnknownAttributeView>>),
    > {
        match MagicNumber::read_spec(s) {
            Err(e) => Err(e),
            Ok((_, after_magic)) => match Requirements::read_spec(after_magic) {
                Err(e) => Err(e),
                Ok((requirements, rest)) => if requirements.is_multipart {
                    match read_headers_spec(rest, requirements, skip_unknown, true) {
                        Err(e) => Err(e),
                        Ok((headers, rest)) => Ok(
                            (
                                (
                                    MetaDataView { requirements, headers: headers.headers },
                                    headers.unknown,
                                ),
                                rest,
                            ),
                        ),
                    }
                } else {
                    match Header::read_spec(rest, requirements, skip_unknown) {
                        Err(e) => Err(e),
                        Ok(((header, unknown), rest)) => Ok(
                            (
                                (
                                    MetaDataView { requirements, headers: seq![header] },
                                    seq![unknown],
                                ),
                                rest,
                            ),
                        ),
                    }
                },
            },
        }
    }
}

/// A header that was read took at least one byte.
pub proof fn lemma_header_read_consumes(s: Seq<u8>, requirements: Requirements, skip_unknown: bool)
    ensures
        Header::read_spec(s, requirements, skip_unknown) matches Ok((_, rest)) ==> rest.len()
            < s.len(),
{
    reveal(Header::read_spec);
    lemma_attributes_read_consume(s, skip_unknown);
}

/// The attributes of a header that were read took at least one byte.
pub proof fn lemma_attributes_read_consume(s: Seq<u8>, skip_unknown: bool)
    ensures
        read_attributes_spec(s, skip_unknown) matches Ok((_, rest)) ==> rest.len() < s.len(),
    decreases s.len(),
{
    if s.len() > 0 && s[0] != 0 {
        lemma_attribute_read_consumes(s, skip_unknown);
        match read_header_attribute_spec(s, skip_unknown) {
            Ok((_, rest)) => {
                lemma_attributes_read_consume(rest, skip_unknown);
            },
            Err(_) => {},
        }
    }
}

/// The attributes of unknown types that were passed over in each header.
pub open spec fn unknown_views_of_each(unknown: Seq<Vec<UnknownAttribute>>) -> Seq<
    Seq<UnknownAttributeView>,
> {
    Seq::new(unknown.len(), |i: int| unknown_views(unknown[i]@))
}

impl MetaData {
    /// Says what is wrong with the first header that is not valid, if any is not.
    fn validate_headers(&self) -> (r: Result<(), Error>)
        ensures
            r == validate_headers(self@.headers, self.requirements),
    {
        let ghost views = header_views(self.headers@);
        let mut index: usize = 0;
        proof {
            assert(views.take(0) =~= Seq::<HeaderView>::empty());
        }
        while index < self.headers.len()
            invariant
                index <= self.headers@.len(),
                views == header_views(self.headers@),
                validate_headers(views.take(index as int), self.requirements) is Ok,
            decreases self.headers@.len() - index,
        {
            proof {
                assert(views.take(index + 1).drop_last() =~= views.take(index as int));
                assert(views.take(index + 1).last() == self.headers@[index as int]@);
                lemma_validate_headers_prefix(views, self.requirements, index + 1);
            }
            self.headers[index].validate(&self.requirements)?;
            index = index + 1;
        }
        proof {
            assert(views.take(index as int) =~= views);
        }
        Ok(())
    }

    /// Says what is wrong with the meta data, if anything.
    pub fn validate(&self) -> (r: Result<(), Error>)
        ensures
            r == self@.validate(),
    {
        self.requirements.validate()?;
        if self.headers.len() == 0 || (!self.requirements.is_multipart && self.headers.len()
            != 1) {
            return Err(
                Error::InvalidContent {
                    what: Value::Attribute("headers"),
                    required: Required::Exact(
                        "one header, or one or more in a file of several layers",
                    ),
                },
            );
        }
        self.validate_headers()
    }

    /// Appends the meta data, if it is valid.
    pub fn write(&self, write: &mut Vec<u8>) -> (r: Result<(), Error>)
        ensures
            r == self@.validate(),
            final(write)@ == if r is Ok {
                old(write)@ + self@.bytes()
            } else {
                old(write)@
            },
    {
        self.validate()?;
        MagicNumber::write(write);
        let written = self.requirements.write(write);
        assert(written is Ok);
        let ghost views = header_views(self.headers@);
        let ghost start = write@;
        let mut index: usize = 0;
        proof {
            assert(views.take(0) =~= Seq::<HeaderView>::empty());
            assert(write@ =~= start + headers_bytes(views.take(0), self.requirements));
        }
        while index < self.headers.len()
            invariant
                index <= self.headers@.len(),
                views == header_views(self.headers@),
                validate_headers(views, self.requirements) is Ok,
                write@ == start + headers_bytes(views.take(index as int), self.requirements),
            decreases self.headers@.len() - index,
        {
            proof {
                assert(views.take(index + 1).drop_last() =~= views.take(index as int));
                assert(views.take(index + 1).last() == self.headers@[index as int]@);
                lemma_validate_headers_prefix(views, self.requirements, index + 1);
            }
            let result = self.headers[index].write(write, &self.requirements);
            assert(result is Ok);
            index = index + 1;
            assert(write@ =~= start + headers_bytes(views.take(index as int), self.requirements));
        }
        proof {
            assert(views.take(index as int) =~= views);
        }
        if self.requirements.is_multipart {
            SequenceEnd::write(write);
        }
        assert(write@ =~= old(write)@ + self@.bytes());
        Ok(())
    }

    /// Reads the headers of a file of several layers.
    fn read_headers(read: &mut ByteReader, requirements: &Requirements, skip_unknown: bool) -> (r:
        Result<(Vec<Header>, Vec<Vec<UnknownAttribute>>), Error>)
        ensures
            final(read).source() == old(read).source(),
            match read_headers_spec(old(read).remaining(), *requirements, skip_unknown, true) {
                Ok((headers, rest)) => r is Ok && header_views(r->Ok_0.0@) == headers.headers
                    && unknown_views_of_each(r->Ok_0.1@) == headers.unknown && final(read).remaining() == rest,
                Err(e) => r == Err::<(Vec<Header>, Vec<Vec<UnknownAttribute>>), Error>(e),
            },
    {
        let ghost start = old(read).remaining();
        let mut headers: Vec<Header> = Vec::new();
        let mut unknown: Vec<Vec<UnknownAttribute>> = Vec::new();
        proof {
            assert(header_views(headers@) =~= Seq::<HeaderView>::empty());
            assert(unknown_views_of_each(unknown@) =~= Seq::<Seq<UnknownAttributeView>>::empty());
        }
        loop
            invariant
                start == old(read).remaining(),
                read.source() == old(read).source(),
                read_headers_spec(start, *requirements, skip_unknown, true) == after_headers(
                    HeadersView {
                        headers: header_views(headers@),
                        unknown: unknown_views_of_each(unknown@),
                    },
                    read_headers_spec(
                        read.remaining(),
                        *requirements,
                        skip_unknown,
                        headers@.len() == 0,
                    ),
                ),
            decreases read.remaining().len(),
        {
            let ghost here = read.remaining();
            let ghost before = HeadersView {
                headers: header_views(headers@),
                unknown: unknown_views_of_each(unknown@),
            };
            if headers.len() > 0 {
                if SequenceEnd::has_come(read)? {
                    proof {
                        assert(before.headers + Seq::<HeaderView>::empty() =~= before.headers);
                        assert(before.unknown + Seq::<Seq<UnknownAttributeView>>::empty()
                            =~= before.unknown);
                    }
                    return Ok((headers, unknown));
                }
            } else {
                if read.remaining_len() == 0 {
                    return Err(Error::Io);
                }
            }
            proof {
                lemma_header_read_consumes(here, *requirements, skip_unknown);
            }
            let (header, passed_over) = Header::read(read, requirements, skip_unknown)?;
            headers.push(header);
            unknown.push(passed_over);
            proof {
                assert(header_views(headers@) =~= before.headers + seq![header@]);
                assert(unknown_views_of_each(unknown@) =~= before.unknown + seq![
                    unknown_views(passed_over@),
                ]);
                match read_headers_spec(read.remaining(), *requirements, skip_unknown, false) {
                    Ok((more, rest)) => {
                        assert(before.headers + (seq![header@] + more.headers) =~= before.headers
                            + seq![header@] + more.headers);
                        assert(before.unknown + (seq![unknown_views(passed_over@)] + more.unknown)
                            =~= before.unknown + seq![unknown_views(passed_over@)] + more.unknown);
                    },
                    Err(_) => {},
                }
            }
        }
    }

    /// Reads the meta data of a file. Attributes of a type that is not
    /// known are passed over and returned beside the meta data, for each
    /// header, where `skip_unknown` is set, and are an error where it is not.
    pub fn read(read: &mut ByteReader, skip_unknown: bool) -> (r: Result<
        (MetaData, Vec<Vec<UnknownAttribute>>),
        Error,
    >)
        ensures
            final(read).source() == old(read).source(),
            match MetaDataView::read_spec(old(read).remaining(), skip_unknown) {
                Ok(((meta_data, unknown), rest)) => r is Ok && r->Ok_0.0@ == meta_data
                    && unknown_views_of_each(r->Ok_0.1@) == unknown && final(read).remaining()
                    == rest,
                Err(e) => r == Err::<(MetaData, Vec<Vec<UnknownAttribute>>), Error>(e),
            },
    {
        MagicNumber::validate_exr(read)?;
        let requirements = Requirements::read(read)?;
        if requirements.is_multipart {
            let (headers, unknown) = MetaData::read_headers(read, &requirements, skip_unknown)?;
            Ok((MetaData { requirements, headers }, unknown))
        } else {
            let (header, passed_over) = Header::read(read, &requirements, skip_unknown)?;
            let mut headers: Vec<Header> = Vec::new();
            headers.push(header);
            let mut unknown: Vec<Vec<UnknownAttribute>> = Vec::new();
            unknown.push(passed_over);
            proof {
                assert(header_views(headers@) =~= seq![header@]);
                assert(unknown_views_of_each(unknown@) =~= seq![unknown_views(passed_over@)]);
            }
            Ok((MetaData { requirements, headers }, unknown))
        }
    }
}

/// The first attribute of a name among attributes put one after
/// another is the first among the former, or else among the latter.
pub proof fn lemma_find_in_both(front: Seq<AttributeView>, back: Seq<AttributeView>, name: Seq<u8>)
    ensures
        find_attribute(front + back, name) == match find_attribute(front, name) {
            Some(value) => Some(value),
            None => find_attribute(back, name),
        },
    decreases front.len(),
{
    if front.len() == 0 {
        assert(front + back =~= back);
    } else {
        assert((front + back).skip(1) =~= front.skip(1) + back);
        lemma_find_in_both(front.skip(1), back, name);
    }
}

/// The first attribute of a name in a sequence of one or of none.
pub proof fn lemma_find_in_one(value: AttributeView, name: Seq<u8>)
    ensures
        find_attribute(seq![value], name) == if value.name == name {
            Some(value.value)
        } else {
            None
        },
        find_attribute(Seq::empty(), name) is None,
{
    assert(seq![value].skip(1) =~= Seq::<AttributeView>::empty());
}

/// Among attributes none of which has a reserved name, there is none of a reserved name.
pub proof fn lemma_find_reserved_in_custom(attributes: Seq<AttributeView>, name: Seq<u8>)
    requires
        !has_reserved_name(attributes),
        is_reserved_name(name),
    ensures
        find_attribute(attributes, name) is None,
    decreases attributes.len(),
{
    if attributes.len() > 0 {
        assert(!is_reserved_name(attributes[0].name));
        assert forall|i: int| 0 <= i < attributes.skip(1).len() implies !is_reserved_name(
            (#[trigger] attributes.skip(1)[i]).name,
        ) by {
            assert(attributes.skip(1)[i] == attributes[i + 1]);
        }
        lemma_find_reserved_in_custom(attributes.skip(1), name);
    }
}

/// The attributes that stand for no field, among attributes put one
/// after another, are those among the former and those among the latter.
pub proof fn lemma_custom_in_both(front: Seq<AttributeView>, back: Seq<AttributeView>)
    ensures
        custom_attributes(front + back) == custom_attributes(front) + custom_attributes(back),
    decreases back.len(),
{
    if back.len() == 0 {
        assert(front + back =~= front);
        assert(custom_attributes(front) + custom_attributes(back) =~= custom_attributes(front));
    } else {
        assert((front + back).drop_last() =~= front + back.drop_last());
        lemma_custom_in_both(front, back.drop_last());
        assert(custom_attributes(front) + custom_attributes(back.drop_last()).push(back.last())
            =~= (custom_attributes(front) + custom_attributes(back.drop_last())).push(
            back.last(),
        ));
    }
}

/// Attributes none of which has a reserved name all stand for no
/// field; attributes all of which have a reserved name all stand for one.
pub proof fn lemma_custom_of_all_or_none(attributes: Seq<AttributeView>)
    ensures
        !has_reserved_name(attributes) ==> custom_attributes(attributes) == attributes,
        (forall|i: int| 0 <= i < attributes.len() ==> is_reserved_name((#[trigger] attributes[i]).name))
            ==> custom_attributes(attributes) == Seq::<AttributeView>::empty(),
    decreases attributes.len(),
{
    if attributes.len() > 0 {
        let front = attributes.drop_last();
        lemma_custom_of_all_or_none(front);
        if !has_reserved_name(attributes) {
            assert(!is_reserved_name(attributes[attributes.len() - 1].name));
            assert forall|i: int| 0 <= i < front.len() implies !is_reserved_name(
                (#[trigger] front[i]).name,
            ) by {
                assert(front[i] == attributes[i]);
            }
            assert(front.push(attributes.last()) =~= attributes);
        }
        if forall|i: int|
            0 <= i < attributes.len() ==> is_reserved_name((#[trigger] attributes[i]).name) {
            assert(is_reserved_name(attributes[attributes.len() - 1].name));
            assert forall|i: int| 0 <= i < front.len() implies is_reserved_name(
                (#[trigger] front[i]).name,
            ) by {
                assert(front[i] == attributes[i]);
            }
        }
    } else {
        assert(attributes =~= Seq::<AttributeView>::empty());
    }
}

/// Two things about a name that tell the reserved names apart: its
/// length and its first byte.
pub open spec fn name_mark(name: Seq<u8>) -> (nat, u8) {
    (name.len(), name[0])
}

/// The marks of the reserved names, and of the texts that name the types
/// of layers. No two reserved names have the same mark.
pub proof fn lemma_name_marks()
    ensures
        name_mark(ascii("tiles")) == (5nat, 116u8),
        name_mark(ascii("name")) == (4nat, 110u8),
        name_mark(ascii("type")) == (4nat, 116u8),
        name_mark(ascii("version")) == (7nat, 118u8),
        name_mark(ascii("chunkCount")) == (10nat, 99u8),
        name_mark(ascii("maxSamplesPerPixel")) == (18nat, 109u8),
        name_mark(ascii("channels")) == (8nat, 99u8),
        name_mark(ascii("compression")) == (11nat, 99u8),
        name_mark(ascii("dataWindow")) == (10nat, 100u8),
        name_mark(ascii("displayWindow")) == (13nat, 100u8),
        name_mark(ascii("lineOrder")) == (9nat, 108u8),
        name_mark(ascii("pixelAspectRatio")) == (16nat, 112u8),
        name_mark(ascii("screenWindowCenter")) == (18nat, 115u8),
        name_mark(ascii("screenWindowWidth")) == (17nat, 115u8),
{
    reveal_strlit("tiles");
    reveal_strlit("name");
    reveal_strlit("type");
    reveal_strlit("version");
    reveal_strlit("chunkCount");
    reveal_strlit("maxSamplesPerPixel");
    reveal_strlit("channels");
    reveal_strlit("compression");
    reveal_strlit("dataWindow");
    reveal_strlit("displayWindow");
    reveal_strlit("lineOrder");
    reveal_strlit("pixelAspectRatio");
    reveal_strlit("screenWindowCenter");
    reveal_strlit("screenWindowWidth");
}

/// The text that names the type of a layer names that type.
pub proof fn lemma_kind_text(deep: bool, tiles: bool)
    ensures
        spec_kind_of(spec_kind_text(deep, tiles)) == Some(
            (if deep {
                2int
            } else {
                0int
            }) + (if tiles {
                1int
            } else {
                0int
            }),
        ),
{
    crate::file::attributes::lemma_kinds_differ();
}

/// The first attribute of a reserved name among the attributes that
/// stand for fields of the header that need not be there.
pub proof fn lemma_find_optional(header: HeaderView, requirements: Requirements, name: Seq<u8>)
    ensures
        find_attribute(header.optional_attributes(requirements), name) == if name == ascii("tiles")
            && header.blocks is Tiles {
            Some(AttributeValueView::TileDescription(header.blocks->Tiles_0))
        } else if name == ascii("name") && header.name is Some {
            Some(AttributeValueView::Text(header.name->Some_0))
        } else if name == ascii("type") && HeaderView::says_kind(requirements) {
            Some(AttributeValueView::Text(spec_kind_text(header.deep, header.blocks is Tiles)))
        } else if name == ascii("chunkCount") && HeaderView::says_kind(requirements) {
            Some(AttributeValueView::I32(header.chunk_count as i32))
        } else if name == ascii("version") && header.deep_data_version is Some {
            Some(AttributeValueView::I32(header.deep_data_version->Some_0))
        } else if name == ascii("maxSamplesPerPixel") && header.max_samples_per_pixel is Some {
            Some(AttributeValueView::I32(header.max_samples_per_pixel->Some_0 as i32))
        } else {
            None
        },
{
    lemma_name_marks();
    let none = Seq::<AttributeView>::empty();
    let tiles = match header.blocks {
        BlockDescription::Tiles(tiles) => seq![
            attribute("tiles", AttributeValueView::TileDescription(tiles)),
        ],
        BlockDescription::ScanLines => none,
    };
    let named = match header.name {
        Some(name) => seq![attribute("name", AttributeValueView::Text(name))],
        None => none,
    };
    let kind = attribute(
        "type",
        AttributeValueView::Text(spec_kind_text(header.deep, header.blocks is Tiles)),
    );
    let count = attribute("chunkCount", AttributeValueView::I32(header.chunk_count as i32));
    let kinds = if HeaderView::says_kind(requirements) {
        seq![kind, count]
    } else {
        none
    };
    let version = match header.deep_data_version {
        Some(version) => seq![attribute("version", AttributeValueView::I32(version))],
        None => none,
    };
    let samples = match header.max_samples_per_pixel {
        Some(samples) => seq![
            attribute("maxSamplesPerPixel", AttributeValueView::I32(samples as i32)),
        ],
        None => none,
    };
    assert(header.optional_attributes(requirements) == tiles + named + kinds + version + samples);
    lemma_find_in_both(tiles + named + kinds + version, samples, name);
    lemma_find_in_both(tiles + named + kinds, version, name);
    lemma_find_in_both(tiles + named, kinds, name);
    lemma_find_in_both(tiles, named, name);
    if header.blocks is Tiles {
        lemma_find_in_one(tiles[0], name);
    }
    if header.name is Some {
        lemma_find_in_one(named[0], name);
    }
    if HeaderView::says_kind(requirements) {
        assert(seq![kind, count] =~= seq![kind] + seq![count]);
        lemma_find_in_both(seq![kind], seq![count], name);
        lemma_find_in_one(kind, name);
        lemma_find_in_one(count, name);
    }
    if header.deep_data_version is Some {
        lemma_find_in_one(version[0], name);
    }
    if header.max_samples_per_pixel is Some {
        lemma_find_in_one(samples[0], name);
    }
    lemma_find_in_one(kind, name);
}

/// The first attribute of a reserved name among the attributes that
/// stand for fields of the header that must be there.
pub proof fn lemma_find_required(header: HeaderView, name: Seq<u8>)
    ensures
        find_attribute(header.required_attributes(), name) == if name == ascii("channels") {
            Some(AttributeValueView::ChannelList(header.channels))
        } else if name == ascii("compression") {
            Some(AttributeValueView::Compression(header.compression))
        } else if name == ascii("dataWindow") {
            Some(AttributeValueView::I32Box2(header.data_window.spec_to_box()))
        } else if name == ascii("displayWindow") {
            Some(AttributeValueView::I32Box2(header.display_window.spec_to_box()))
        } else if name == ascii("lineOrder") {
            Some(AttributeValueView::LineOrder(header.line_order))
        } else if name == ascii("pixelAspectRatio") {
            Some(AttributeValueView::F32(header.pixel_aspect))
        } else if name == ascii("screenWindowCenter") {
            Some(
                AttributeValueView::F32Vec2(
                    header.screen_window_center.0,
                    header.screen_window_center.1,
                ),
            )
        } else if name == ascii("screenWindowWidth") {
            Some(AttributeValueView::F32(header.screen_window_width))
        } else {
            None
        },
{
    lemma_name_marks();
    let all = header.required_attributes();
    let a = seq![all[0]];
    let b = seq![all[1]];
    let c = seq![all[2]];
    let d = seq![all[3]];
    let e = seq![all[4]];
    let f = seq![all[5]];
    let g = seq![all[6]];
    let h = seq![all[7]];
    assert(all =~= a + b + c + d + e + f + g + h);
    lemma_find_in_both(a + b + c + d + e + f + g, h, name);
    lemma_find_in_both(a + b + c + d + e + f, g, name);
    lemma_find_in_both(a + b + c + d + e, f, name);
    lemma_find_in_both(a + b + c + d, e, name);
    lemma_find_in_both(a + b + c, d, name);
    lemma_find_in_both(a + b, c, name);
    lemma_find_in_both(a, b, name);
    lemma_find_in_one(all[0], name);
    lemma_find_in_one(all[1], name);
    lemma_find_in_one(all[2], name);
    lemma_find_in_one(all[3], name);
    lemma_find_in_one(all[4], name);
    lemma_find_in_one(all[5], name);
    lemma_find_in_one(all[6], name);
    lemma_find_in_one(all[7], name);
}

/// The first attribute of a reserved name among the attributes that a
/// header is written as is the one that stands for the field of that
/// name, whatever other attributes the header has.
pub proof fn lemma_find_in_header(header: HeaderView, requirements: Requirements, name: Seq<u8>)
    requires
        !has_reserved_name(header.custom_attributes),
        is_reserved_name(name),
    ensures
        find_attribute(header.attributes(requirements), name) == match find_attribute(
            header.optional_attributes(requirements),
            name,
        ) {
            Some(value) => Some(value),
            None => find_attribute(header.required_attributes(), name),
        },
{
    let optional = header.optional_attributes(requirements);
    let required = header.required_attributes();
    lemma_find_in_both(optional + required, header.custom_attributes, name);
    lemma_find_in_both(optional, required, name);
    lemma_find_reserved_in_custom(header.custom_attributes, name);
}

/// The attributes that stand for no field, among the attributes that a
/// header is written as, are the other attributes of the header.
pub proof fn lemma_custom_in_header(header: HeaderView, requirements: Requirements)
    requires
        !has_reserved_name(header.custom_attributes),
    ensures
        custom_attributes(header.attributes(requirements)) == header.custom_attributes,
{
    let optional = header.optional_attributes(requirements);
    let required = header.required_attributes();
    lemma_custom_in_both(optional + required, header.custom_attributes);
    lemma_custom_in_both(optional, required);
    lemma_custom_of_all_or_none(header.custom_attributes);
    lemma_custom_of_all_or_none(required);
    lemma_custom_of_all_or_none(optional);
    assert forall|i: int| 0 <= i < required.len() implies is_reserved_name(
        (#[trigger] required[i]).name,
    ) by {}
    assert forall|i: int| 0 <= i < optional.len() implies is_reserved_name(
        (#[trigger] optional[i]).name,
    ) by {
        lemma_optional_names(header, requirements, i);
    }
    assert(Seq::<AttributeView>::empty() + Seq::<AttributeView>::empty() + header.custom_attributes
        =~= header.custom_attributes);
}

/// Each attribute that stands for a field that need not be there has a reserved name.
pub proof fn lemma_optional_names(header: HeaderView, requirements: Requirements, index: int)
    requires
        0 <= index < header.optional_attributes(requirements).len(),
    ensures
        is_reserved_name(header.optional_attributes(requirements)[index].name),
{
}

/// Reading the attributes that a valid header is written as gives the
/// header back: every field, and every other attribute.
pub proof fn lemma_header_read_written(header: HeaderView, requirements: Requirements)
    requires
        header.validate_fields(requirements) is Ok,
    ensures
        header_from_attributes_spec(header.attributes(requirements), requirements) == Ok::<
            HeaderView,
            Error,
        >(header),
{
    let attributes = header.attributes(requirements);
    lemma_find_everything(header, requirements);
    lemma_custom_in_header(header, requirements);
    lemma_kind_text(header.deep, header.blocks is Tiles);
    header.data_window.lemma_box_round_trip();
    header.display_window.lemma_box_round_trip();
    let fields = header_fields(attributes);
    assert(field_error(fields) is None);
    assert(says_deep(fields) == header.deep);
    assert(blocks_of(fields) == header.blocks);
    assert(consistency_error(fields, requirements) is None);
    assert(header_of(attributes).max_samples_per_pixel == header.max_samples_per_pixel);
    assert(header_of(attributes).name == header.name);
    assert(header_of(attributes) == header);
}

/// What each reserved name finds among the attributes that a valid
/// header is written as.
pub proof fn lemma_find_everything(header: HeaderView, requirements: Requirements)
    requires
        !has_reserved_name(header.custom_attributes),
    ensures
        ({
            let fields = header_fields(header.attributes(requirements));
            &&& fields.channels == Ok::<Seq<ChannelView>, Error>(header.channels)
            &&& fields.compression == Ok::<Compression, Error>(header.compression)
            &&& fields.data_window == Ok::<I32Box2, Error>(header.data_window.spec_to_box())
            &&& fields.display_window == Ok::<I32Box2, Error>(header.display_window.spec_to_box())
            &&& fields.line_order == Ok::<LineOrder, Error>(header.line_order)
            &&& fields.pixel_aspect == Ok::<u32, Error>(header.pixel_aspect)
            &&& fields.screen_window_center == Ok::<Vec2<u32>, Error>(header.screen_window_center)
            &&& fields.screen_window_width == Ok::<u32, Error>(header.screen_window_width)
            &&& fields.tiles == Ok::<Option<TileDescription>, Error>(
                match header.blocks {
                    BlockDescription::Tiles(tiles) => Some(tiles),
                    BlockDescription::ScanLines => None,
                },
            )
            &&& fields.name == Ok::<Option<Seq<u8>>, Error>(header.name)
            &&& fields.kind == if HeaderView::says_kind(requirements) {
                match spec_kind_of(spec_kind_text(header.deep, header.blocks is Tiles)) {
                    Some(kind) => Ok::<Option<int>, Error>(Some(kind)),
                    None => Err::<Option<int>, Error>(kind_error()),
                }
            } else {
                Ok::<Option<int>, Error>(None)
            }
            &&& fields.version == Ok::<Option<i32>, Error>(header.deep_data_version)
            &&& fields.max_samples == Ok::<Option<i32>, Error>(
                match header.max_samples_per_pixel {
                    Some(samples) => Some(samples as i32),
                    None => None,
                },
            )
            &&& fields.chunk_count == Ok::<Option<i32>, Error>(
                if HeaderView::says_kind(requirements) {
                    Some(header.chunk_count as i32)
                } else {
                    None
                },
            )
        }),
{
    lemma_name_marks();
    lemma_find_all(header, requirements, ascii("channels"));
    lemma_find_all(header, requirements, ascii("compression"));
    lemma_find_all(header, requirements, ascii("dataWindow"));
    lemma_find_all(header, requirements, ascii("displayWindow"));
    lemma_find_all(header, requirements, ascii("lineOrder"));
    lemma_find_all(header, requirements, ascii("pixelAspectRatio"));
    lemma_find_all(header, requirements, ascii("screenWindowCenter"));
    lemma_find_all(header, requirements, ascii("screenWindowWidth"));
    lemma_find_all(header, requirements, ascii("tiles"));
    lemma_find_all(header, requirements, ascii("name"));
    lemma_find_all(header, requirements, ascii("type"));
    lemma_find_all(header, requirements, ascii("version"));
    lemma_find_all(header, requirements, ascii("maxSamplesPerPixel"));
    lemma_find_all(header, requirements, ascii("chunkCount"));
}

/// What a reserved name finds among the attributes that a header is written as.
pub proof fn lemma_find_all(header: HeaderView, requirements: Requirements, name: Seq<u8>)
    requires
        !has_reserved_name(header.custom_attributes),
        is_reserved_name(name),
    ensures
        find_attribute(header.attributes(requirements), name) == match find_attribute(
            header.optional_attributes(requirements),
            name,
        ) {
            Some(value) => Some(value),
            None => find_attribute(header.required_attributes(), name),
        },
        find_attribute(header.optional_attributes(requirements), name) == if name == ascii("tiles")
            && header.blocks is Tiles {
            Some(AttributeValueView::TileDescription(header.blocks->Tiles_0))
        } else if name == ascii("name") && header.name is Some {
            Some(AttributeValueView::Text(header.name->Some_0))
        } else if name == ascii("type") && HeaderView::says_kind(requirements) {
            Some(AttributeValueView::Text(spec_kind_text(header.deep, header.blocks is Tiles)))
        } else if name == ascii("chunkCount") && HeaderView::says_kind(requirements) {
            Some(AttributeValueView::I32(header.chunk_count as i32))
        } else if name == ascii("version") && header.deep_data_version is Some {
            Some(AttributeValueView::I32(header.deep_data_version->Some_0))
        } else if name == ascii("maxSamplesPerPixel") && header.max_samples_per_pixel is Some {
            Some(AttributeValueView::I32(header.max_samples_per_pixel->Some_0 as i32))
        } else {
            None
        },
        find_attribute(header.required_attributes(), name) == if name == ascii("channels") {
            Some(AttributeValueView::ChannelList(header.channels))
        } else if name == ascii("compression") {
            Some(AttributeValueView::Compression(header.compression))
        } else if name == ascii("dataWindow") {
            Some(AttributeValueView::I32Box2(header.data_window.spec_to_box()))
        } else if name == ascii("displayWindow") {
            Some(AttributeValueView::I32Box2(header.display_window.spec_to_box()))
        } else if name == ascii("lineOrder") {
            Some(AttributeValueView::LineOrder(header.line_order))
        } else if name == ascii("pixelAspectRatio") {
            Some(AttributeValueView::F32(header.pixel_aspect))
        } else if name == ascii("screenWindowCenter") {
            Some(
                AttributeValueView::F32Vec2(
                    header.screen_window_center.0,
                    header.screen_window_center.1,
                ),
            )
        } else if name == ascii("screenWindowWidth") {
            Some(AttributeValueView::F32(header.screen_window_width))
        } else {
            None
        },
{
    lemma_find_in_header(header, requirements, name);
    lemma_find_optional(header, requirements, name);
    lemma_find_required(header, name);
}

/// The name of the type of a value is that of a type that is known.
pub proof fn lemma_kind_name_is_known(value: AttributeValueView)
    ensures
        AttributeValueView::is_known_kind(value.kind_name()),
{
    crate::file::laws::lemma_kind_marks();
}

/// Whether each attribute has the shape that its type asks for, and
/// texts that are short enough to be read again.
pub open spec fn are_readable(attributes: Seq<AttributeView>) -> bool {
    forall|i: int|
        0 <= i < attributes.len() ==> (#[trigger] attributes[i]).value.wf()
            && attributes[i].value.within_limits()
}

/// Reading the attributes of a header that were written, with a zero
/// byte behind them, gives the attributes back, and none of a type that
/// is not known.
pub proof fn lemma_attributes_read_written(
    attributes: Seq<AttributeView>,
    long_names: bool,
    skip_unknown: bool,
    tail: Seq<u8>,
)
    requires
        validate_attributes(attributes, long_names) is Ok,
        are_readable(attributes),
    ensures
        read_attributes_spec(attributes_bytes(attributes).push(0u8) + tail, skip_unknown) == Ok::<
            (AttributeViews, Seq<u8>),
            Error,
        >((AttributeViews { known: attributes, unknown: Seq::empty() }, tail)),
    decreases attributes.len(),
{
    let none = Seq::<AttributeView>::empty();
    let s = attributes_bytes(attributes).push(0u8) + tail;
    if attributes.len() == 0 {
        assert(attributes_bytes(attributes) =~= Seq::<u8>::empty());
        assert(s[0] == 0);
        assert(s.skip(1) =~= tail);
        assert(attributes =~= none);
    } else {
        let first = attributes[0];
        let others = attributes.skip(1);
        lemma_attributes_bytes_front(attributes);
        lemma_validate_attributes_front(attributes, long_names);
        let t = attributes_bytes(others).push(0u8) + tail;
        assert(s =~= first.bytes() + t);
        assert(first.value.wf() && first.value.within_limits());
        crate::file::laws::lemma_attribute_read_written(first, long_names, t);
        crate::file::laws::lemma_valid_text_has_no_zero(first.name, Some(long_names));
        assert(first.bytes()[0] == first.name[0]);
        assert(s[0] != 0);
        assert(t.len() < s.len());
        lemma_written_attribute_is_known(first, long_names, t);
        assert(read_header_attribute_spec(s, skip_unknown) == Ok::<
            (AttributeViews, Seq<u8>),
            Error,
        >((AttributeViews { known: seq![first], unknown: Seq::empty() }, t))) by {
            reveal(read_header_attribute_spec);
        }
        assert forall|i: int| 0 <= i < others.len() implies (#[trigger] others[i]).value.wf()
            && others[i].value.within_limits() by {
            assert(others[i] == attributes[i + 1]);
        }
        lemma_attributes_read_written(others, long_names, skip_unknown, tail);
        assert(seq![first] + others =~= attributes);
        assert(Seq::<UnknownAttributeView>::empty() + Seq::<UnknownAttributeView>::empty()
            =~= Seq::<UnknownAttributeView>::empty());
    }
}

/// The bytes of a written attribute do not start like an attribute of
/// a type that is not known.
pub proof fn lemma_written_attribute_is_known(
    attribute: AttributeView,
    long_names: bool,
    tail: Seq<u8>,
)
    requires
        attribute.validate(long_names) is Ok,
    ensures
        !starts_with_unknown_attribute(attribute.bytes() + tail),
{
    let value = attribute.value.bytes();
    let size = value.len() as i32;
    let kind = attribute.value.kind_name();
    let r3 = value + tail;
    let r2 = crate::io::i32_le(size) + r3;
    let r1 = kind.push(0u8) + r2;
    let s = attribute.name.push(0u8) + r1;
    crate::file::laws::lemma_add_assoc(
        attribute.name.push(0u8) + kind.push(0u8) + crate::io::i32_le(size),
        value,
        tail,
    );
    crate::file::laws::lemma_add_assoc(
        attribute.name.push(0u8) + kind.push(0u8),
        crate::io::i32_le(size),
        r3,
    );
    crate::file::laws::lemma_add_assoc(attribute.name.push(0u8), kind.push(0u8), r2);
    assert(attribute.bytes() + tail == s);
    crate::file::laws::lemma_valid_text_has_no_zero(attribute.name, Some(long_names));
    crate::file::laws::lemma_null_terminated_read_written(attribute.name, r1);
    crate::file::laws::lemma_kind_name_has_no_zero(attribute.value);
    crate::file::laws::lemma_null_terminated_read_written(kind, r2);
    lemma_kind_name_is_known(attribute.value);
}

/// The bytes of attributes start with those of the first.
pub proof fn lemma_attributes_bytes_front(attributes: Seq<AttributeView>)
    requires
        attributes.len() > 0,
    ensures
        attributes_bytes(attributes) == attributes[0].bytes() + attributes_bytes(
            attributes.skip(1),
        ),
    decreases attributes.len(),
{
    if attributes.len() == 1 {
        assert(attributes.drop_last() =~= Seq::<AttributeView>::empty());
        assert(attributes.skip(1) =~= Seq::<AttributeView>::empty());
        assert(attributes_bytes(attributes) =~= attributes[0].bytes() + attributes_bytes(
            attributes.skip(1),
        ));
    } else {
        let front = attributes.drop_last();
        lemma_attributes_bytes_front(front);
        assert(front.skip(1) =~= attributes.skip(1).drop_last());
        assert(attributes.skip(1).last() == attributes.last());
        assert(attributes_bytes(attributes) =~= attributes[0].bytes() + attributes_bytes(
            attributes.skip(1),
        ));
    }
}

/// Where nothing is wrong with attributes, nothing is wrong with the
/// first, nor with the others.
pub proof fn lemma_validate_attributes_front(attributes: Seq<AttributeView>, long_names: bool)
    requires
        attributes.len() > 0,
        validate_attributes(attributes, long_names) is Ok,
    ensures
        attributes[0].validate(long_names) is Ok,
        validate_attributes(attributes.skip(1), long_names) is Ok,
    decreases attributes.len(),
{
    if attributes.len() == 1 {
        assert(attributes.drop_last() =~= Seq::<AttributeView>::empty());
        assert(attributes.skip(1) =~= Seq::<AttributeView>::empty());
    } else {
        let front = attributes.drop_last();
        lemma_validate_attributes_front(front, long_names);
        assert(front.skip(1) =~= attributes.skip(1).drop_last());
        assert(attributes.skip(1).last() == attributes.last());
    }
}

impl HeaderView {
    /// Whether the channels and the other attributes of the header have
    /// the shape that their types ask for, and texts that are short enough
    /// to be read again.
    pub open spec fn is_readable(self) -> bool {
        &&& forall|i: int| 0 <= i < self.channels.len() ==> (#[trigger] self.channels[i]).wf()
        &&& are_readable(self.custom_attributes)
    }
}

/// Reading a valid header that was written gives the header back: all that a file
/// says of a layer is kept when the file is read and written again.
pub proof fn lemma_header_bytes_read(
    header: HeaderView,
    requirements: Requirements,
    skip_unknown: bool,
    tail: Seq<u8>,
)
    requires
        header.validate(requirements) is Ok,
        header.is_readable(),
    ensures
        Header::read_spec(header.bytes(requirements) + tail, requirements, skip_unknown) == Ok::<
            ((HeaderView, Seq<UnknownAttributeView>), Seq<u8>),
            Error,
        >(((header, Seq::empty()), tail)),
{
    let attributes = header.attributes(requirements);
    let optional = header.optional_attributes(requirements);
    let required = header.required_attributes();
    assert forall|i: int| 0 <= i < attributes.len() implies (#[trigger] attributes[i]).value.wf()
        && attributes[i].value.within_limits() by {
        if i < optional.len() {
            lemma_optional_readable(header, requirements, i);
        } else if i < optional.len() + required.len() {
            assert(attributes[i] == required[i - optional.len()]);
        } else {
            assert(attributes[i] == header.custom_attributes[i - optional.len() - required.len()]);
        }
    }
    lemma_attributes_read_written(attributes, requirements.has_long_names, skip_unknown, tail);
    lemma_header_read_written(header, requirements);
    reveal(Header::read_spec);
}

/// Each attribute that stands for a field that need not be there can be read again.
pub proof fn lemma_optional_readable(header: HeaderView, requirements: Requirements, index: int)
    requires
        header.validate_fields(requirements) is Ok,
        0 <= index < header.optional_attributes(requirements).len(),
    ensures
        header.optional_attributes(requirements)[index].value.wf(),
        header.optional_attributes(requirements)[index].value.within_limits(),
        header.attributes(requirements)[index] == header.optional_attributes(requirements)[index],
{
    reveal_strlit("scanlineimage");
    reveal_strlit("tiledimage");
    reveal_strlit("deepscanline");
    reveal_strlit("deeptile");
}

/// The bytes of headers start with those of the first.
pub proof fn lemma_headers_bytes_front(headers: Seq<HeaderView>, requirements: Requirements)
    requires
        headers.len() > 0,
    ensures
        headers_bytes(headers, requirements) == headers[0].bytes(requirements) + headers_bytes(
            headers.skip(1),
            requirements,
        ),
    decreases headers.len(),
{
    if headers.len() == 1 {
        assert(headers.drop_last() =~= Seq::<HeaderView>::empty());
        assert(headers.skip(1) =~= Seq::<HeaderView>::empty());
        assert(headers_bytes(headers, requirements) =~= headers[0].bytes(requirements)
            + headers_bytes(headers.skip(1), requirements));
    } else {
        let front = headers.drop_last();
        lemma_headers_bytes_front(front, requirements);
        assert(front.skip(1) =~= headers.skip(1).drop_last());
        assert(headers.skip(1).last() == headers.last());
        assert(headers_bytes(headers, requirements) =~= headers[0].bytes(requirements)
            + headers_bytes(headers.skip(1), requirements));
    }
}

/// Where nothing is wrong with headers, nothing is wrong with the first,
/// nor with the others.
pub proof fn lemma_validate_headers_front(headers: Seq<HeaderView>, requirements: Requirements)
    requires
        headers.len() > 0,
        validate_headers(headers, requirements) is Ok,
    ensures
        headers[0].validate(requirements) is Ok,
        validate_headers(headers.skip(1), requirements) is Ok,
    decreases headers.len(),
{
    if headers.len() == 1 {
        assert(headers.drop_last() =~= Seq::<HeaderView>::empty());
        assert(headers.skip(1) =~= Seq::<HeaderView>::empty());
    } else {
        let front = headers.drop_last();
        lemma_validate_headers_front(front, requirements);
        assert(front.skip(1) =~= headers.skip(1).drop_last());
        assert(headers.skip(1).last() == headers.last());
    }
}

/// The bytes of a valid header start with a byte that is not zero:
/// with the name of an attribute.
pub proof fn lemma_header_bytes_start(header: HeaderView, requirements: Requirements, tail: Seq<u8>)
    requires
        header.validate(requirements) is Ok,
    ensures
        (header.bytes(requirements) + tail).len() > tail.len(),
        (header.bytes(requirements) + tail)[0] != 0,
{
    let attributes = header.attributes(requirements);
    assert(header.required_attributes().len() == 8);
    assert(attributes.len() > 0);
    lemma_attributes_bytes_front(attributes);
    lemma_validate_attributes_front(attributes, requirements.has_long_names);
    crate::file::laws::lemma_valid_text_has_no_zero(
        attributes[0].name,
        Some(requirements.has_long_names),
    );
    assert(attributes[0].bytes()[0] == attributes[0].name[0]);
}

/// For each of `count` headers, no attribute of a type that is not known.
pub open spec fn nothing_unknown(count: nat) -> Seq<Seq<UnknownAttributeView>> {
    Seq::new(count, |i: int| Seq::<UnknownAttributeView>::empty())
}

/// Reading the valid headers of a file of several layers that were
/// written, with a zero byte behind them, gives the headers back.
pub proof fn lemma_headers_read_written(
    headers: Seq<HeaderView>,
    requirements: Requirements,
    skip_unknown: bool,
    first: bool,
    tail: Seq<u8>,
)
    requires
        validate_headers(headers, requirements) is Ok,
        forall|i: int| 0 <= i < headers.len() ==> (#[trigger] headers[i]).is_readable(),
        first ==> headers.len() > 0,
    ensures
        read_headers_spec(
            headers_bytes(headers, requirements).push(0u8) + tail,
            requirements,
            skip_unknown,
            first,
        ) == Ok::<(HeadersView, Seq<u8>), Error>(
            (HeadersView { headers, unknown: nothing_unknown(headers.len()) }, tail),
        ),
    decreases headers.len(),
{
    let s = headers_bytes(headers, requirements).push(0u8) + tail;
    if headers.len() == 0 {
        assert(headers_bytes(headers, requirements) =~= Seq::<u8>::empty());
        assert(s[0] == 0);
        assert(s.skip(1) =~= tail);
        assert(headers =~= Seq::<HeaderView>::empty());
        assert(nothing_unknown(0) =~= Seq::<Seq<UnknownAttributeView>>::empty());
    } else {
        let one = headers[0];
        let others = headers.skip(1);
        lemma_headers_bytes_front(headers, requirements);
        lemma_validate_headers_front(headers, requirements);
        let t = headers_bytes(others, requirements).push(0u8) + tail;
        assert(s =~= one.bytes(requirements) + t);
        lemma_header_bytes_start(one, requirements, t);
        assert(one.is_readable());
        lemma_header_bytes_read(one, requirements, skip_unknown, t);
        assert forall|i: int| 0 <= i < others.len() implies (#[trigger] others[i]).is_readable() by {
            assert(others[i] == headers[i + 1]);
        }
        lemma_headers_read_written(others, requirements, skip_unknown, false, tail);
        assert(seq![one] + others =~= headers);
        assert(seq![Seq::<UnknownAttributeView>::empty()] + nothing_unknown(others.len())
            =~= nothing_unknown(headers.len()));
    }
}

/// Reading valid meta data that was written gives the meta data back:
/// the requirements, and every header with all its attributes.
pub proof fn lemma_meta_data_read_written(meta_data: MetaDataView, skip_unknown: bool, tail: Seq<u8>)
    requires
        meta_data.validate() is Ok,
        forall|i: int|
            0 <= i < meta_data.headers.len() ==> (#[trigger] meta_data.headers[i]).is_readable(),
    ensures
        MetaDataView::read_spec(meta_data.bytes() + tail, skip_unknown) == Ok::<
            ((MetaDataView, Seq<Seq<UnknownAttributeView>>), Seq<u8>),
            Error,
        >(((meta_data, nothing_unknown(meta_data.headers.len())), tail)),
{
    let requirements = meta_data.requirements;
    let headers = meta_data.headers;
    let end = if requirements.is_multipart {
        seq![0u8]
    } else {
        Seq::<u8>::empty()
    };
    let r2 = headers_bytes(headers, requirements) + end + tail;
    let r1 = requirements.bytes() + r2;
    let s = magic_number_bytes() + r1;
    assert(meta_data.bytes() + tail =~= s);
    crate::meta::lemma_magic_number_round_trip(s, r1);
    crate::meta::lemma_requirements_round_trip(requirements, s, r2);
    if requirements.is_multipart {
        assert(r2 =~= headers_bytes(headers, requirements).push(0u8) + tail);
        lemma_headers_read_written(headers, requirements, skip_unknown, true, tail);
    } else {
        assert(headers.len() == 1);
        assert(headers.drop_last() =~= Seq::<HeaderView>::empty());
        assert(headers_bytes(headers.drop_last(), requirements) =~= Seq::<u8>::empty());
        assert(r2 =~= headers[0].bytes(requirements) + tail);
        assert(headers[0].validate(requirements) is Ok);
        lemma_header_bytes_read(headers[0], requirements, skip_unknown, tail);
        assert(seq![headers[0]] =~= headers);
        assert(seq![Seq::<UnknownAttributeView>::empty()] =~= nothing_unknown(1));
    }
}

/// The channels of a header that can be written are in the order of
/// their names, and no two have the same name.
pub proof fn lemma_written_channels_sorted(header: HeaderView, requirements: Requirements)
    requires
        header.validate(requirements) is Ok,
    ensures
        are_strictly_sorted(header.channels),
        forall|low: int, high: int|
            0 <= low < high < header.channels.len() ==> precedes(
                #[trigger] header.channels[low].name,
                #[trigger] header.channels[high].name,
            ) && header.channels[low].name != header.channels[high].name,
{
    assert forall|low: int, high: int| 0 <= low < high < header.channels.len() implies precedes(
        #[trigger] header.channels[low].name,
        #[trigger] header.channels[high].name,
    ) && header.channels[low].name != header.channels[high].name by {
        lemma_sorted_channels_all_pairs(header.channels, low, high);
    }
}

/// In channels that are in the order of their names, each name comes
/// before all names behind it.
pub proof fn lemma_sorted_channels_all_pairs(channels: Seq<ChannelView>, low: int, high: int)
    requires
        are_strictly_sorted(channels),
        0 <= low < high < channels.len(),
    ensures
        precedes(channels[low].name, channels[high].name),
        channels[low].name != channels[high].name,
    decreases high - low,
{
    assert(precedes(channels[high - 1].name, channels[high].name));
    if low + 1 < high {
        lemma_sorted_channels_all_pairs(channels, low, high - 1);
        crate::sort::lemma_precedes_is_transitive(
            channels[low].name,
            channels[high - 1].name,
            channels[high].name,
        );
    }
    crate::sort::lemma_precedes_is_total_order(channels[low].name, channels[low].name);
}

} // verus!
