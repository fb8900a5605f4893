//! The tables of an ELF image that dynamic linking reads, as plain values.

use elf::endian::AnyEndian;
use elf::string_table::StringTable;
use elf::ElfBytes;
use elf::ParseError;
use vstd::prelude::*;

verus! {

/// `elf::ParseError`, of which nothing is known here but that it is an error.
#[verifier::external_type_specification]
#[verifier::external_body]
pub struct ExParseError(ParseError);

/// `elf::string_table::StringTable`, known here by the strings that it holds.
#[verifier::external_type_specification]
#[verifier::external_body]
pub struct ExStringTable<'data>(StringTable<'data>);

/// One entry of the dynamic symbol table.
#[derive(Clone, Copy, Debug, PartialEq, Eq, Structural)]
pub struct RawSymbol {
    /// Offset of the symbol's name in the string table.
    pub name_offset: u32,
    /// Whether no section of this image defines the symbol.
    pub undefined: bool,
    /// Visibility of the symbol; zero is the default visibility.
    pub visibility: u8,
}

/// One entry of the dynamic section.
#[derive(Clone, Copy, Debug, PartialEq, Eq, Structural)]
pub struct RawDyn {
    pub tag: i64,
    pub value: u64,
}

/// Type and link of one section header.
#[derive(Clone, Copy, Debug, PartialEq, Eq, Structural)]
pub struct SectionLink {
    /// The type of the section.
    pub kind: u32,
    /// The index of the section that this one refers to; for a symbol table
    /// or a dynamic section, its string table.
    pub link: u32,
}

/// The tables that an image holds for dynamic linking, as its sections give
/// them.
pub struct CommonTables<'data> {
    /// The type field of the file header.
    pub file_type: u16,
    /// The dynamic symbol table, where the image has one.
    pub symbols: Option<Vec<RawSymbol>>,
    /// The string table that the dynamic symbol table refers to.
    pub strings: Option<StringTable<'data>>,
    /// The dynamic section, where the image has one.
    pub entries: Option<Vec<RawDyn>>,
}

/// Mathematical content of [`CommonTables`].
pub struct CommonTablesView {
    pub file_type: u16,
    pub symbols: Option<Seq<RawSymbol>>,
    pub strings: Option<Map<int, Seq<char>>>,
    pub entries: Option<Seq<RawDyn>>,
}

/// What an image holds for dynamic linking: the dynamic symbols and the
/// dynamic section, each with the string table that it refers to.
pub struct ElfTables<'data> {
    /// The type field of the file header.
    pub file_type: u16,
    /// The dynamic symbol table, where the image has one.
    pub symbols: Option<Vec<RawSymbol>>,
    /// The string table that the dynamic symbol table refers to.
    pub strings: Option<StringTable<'data>>,
    /// The dynamic section, where the image has one.
    pub entries: Option<Vec<RawDyn>>,
    /// The string table that the dynamic section refers to.
    pub dynamic_strings: Option<StringTable<'data>>,
}

/// Mathematical content of [`ElfTables`].
pub struct ElfTablesView {
    pub file_type: u16,
    pub symbols: Option<Seq<RawSymbol>>,
    pub strings: Option<Map<int, Seq<char>>>,
    pub entries: Option<Seq<RawDyn>>,
    pub dynamic_strings: Option<Map<int, Seq<char>>>,
}

/// The strings of a string table, each under the offset at which it starts.
/// An offset is absent where no well-formed string starts.
pub uninterp spec fn string_table_entries(table: StringTable) -> Map<int, Seq<char>>;

/// The tables found in an ELF image, or `None` where the bytes are no
/// well-formed image.
pub uninterp spec fn elf_tables(data: Seq<u8>) -> Option<CommonTablesView>;

/// Type and link of each section header of an ELF image, in table order. The
/// outer `None` stands for bytes that are no well-formed image, the inner one
/// for an image without section headers.
pub uninterp spec fn elf_sections(data: Seq<u8>) -> Option<Option<Seq<SectionLink>>>;

/// The strings of the section at `index` of an ELF image, read as a string
/// table. The outer `None` stands for bytes that are no well-formed image, an
/// index without a section, or a section that is no string table; the inner
/// one for an image without section headers.
pub uninterp spec fn elf_section_strings(data: Seq<u8>, index: int) -> Option<
    Option<Map<int, Seq<char>>>,
>;

/// The strings of an optional string table.
pub open spec fn table_entries(table: Option<StringTable>) -> Option<Map<int, Seq<char>>> {
    match table {
        Some(t) => Some(string_table_entries(t)),
        None => None,
    }
}

impl<'data> View for CommonTables<'data> {
    type V = CommonTablesView;

    open spec fn view(&self) -> CommonTablesView {
        CommonTablesView {
            file_type: self.file_type,
            symbols: match self.symbols {
                Some(s) => Some(s@),
                None => None,
            },
            strings: table_entries(self.strings),
            entries: match self.entries {
                Some(e) => Some(e@),
                None => None,
            },
        }
    }
}

impl<'data> View for ElfTables<'data> {
    type V = ElfTablesView;

    open spec fn view(&self) -> ElfTablesView {
        ElfTablesView {
            file_type: self.file_type,
            symbols: match self.symbols {
                Some(s) => Some(s@),
                None => None,
            },
            strings: table_entries(self.strings),
            entries: match self.entries {
                Some(e) => Some(e@),
                None => None,
            },
            dynamic_strings: table_entries(self.dynamic_strings),
        }
    }
}

/// `elf::ElfBytes::minimal_parse` followed by `ElfBytes::find_common_data`,
/// with the dynamic symbol table and the dynamic section handed out entry by
/// entry, and the string table of the dynamic symbols as the crate gives it.
/// Nothing is proved of it: the contract claims that what comes back, and
/// whether anything does, depends on the bytes alone. An error means that the
/// crate rejected the file header, the section headers or the program headers.
#[verifier::external_body]
pub(crate) fn read_tables<'data>(data: &'data [u8]) -> (r: Result<
    CommonTables<'data>,
    ParseError,
>)
    ensures
        r is Ok <==> elf_tables(data@) is Some,
        r matches Ok(t) ==> elf_tables(data@) == Some(t@),
{
    let file = ElfBytes::<AnyEndian>::minimal_parse(data)?;
    let common = file.find_common_data()?;
    Ok(CommonTables {
        file_type: file.ehdr.e_type,
        symbols: common.dynsyms.map(|t| t.iter().map(|s| RawSymbol {
            name_offset: s.st_name,
            undefined: s.is_undefined(),
            visibility: s.st_vis(),
        }).collect()),
        strings: common.dynsyms_strs,
        entries: common.dynamic.map(|t| t.iter().map(|d| RawDyn {
            tag: d.d_tag,
            value: d.d_val(),
        }).collect()),
    })
}

/// `elf::ElfBytes::minimal_parse` followed by `ElfBytes::section_headers`,
/// with type and link of each header handed out in table order. Nothing is
/// proved of it: the contract claims that what comes back, and whether
/// anything does, depends on the bytes alone.
#[verifier::external_body]
pub(crate) fn read_sections(data: &[u8]) -> (r: Result<Option<Vec<SectionLink>>, ParseError>)
    ensures
        r is Ok <==> elf_sections(data@) is Some,
        r matches Ok(Some(s)) ==> elf_sections(data@) == Some(Some(s@)),
        r matches Ok(None) ==> elf_sections(data@) == Some(None::<Seq<SectionLink>>),
{
    let file = ElfBytes::<AnyEndian>::minimal_parse(data)?;
    Ok(file.section_headers().map(|t| t.iter().map(|h| SectionLink {
        kind: h.sh_type,
        link: h.sh_link,
    }).collect()))
}

/// `elf::ElfBytes::minimal_parse`, then `get` on the section headers and
/// `ElfBytes::section_data_as_strtab` on the header at `index`, which refuses
/// a section that is no string table. Nothing is proved of it: the contract
/// claims that what comes back, and whether anything does, depends on the
/// bytes and the index alone.
#[verifier::external_body]
pub(crate) fn read_section_strings<'data>(data: &'data [u8], index: usize) -> (r: Result<
    Option<StringTable<'data>>,
    ParseError,
>)
    ensures
        r is Ok <==> elf_section_strings(data@, index as int) is Some,
        r matches Ok(t) ==> elf_section_strings(data@, index as int) == Some(table_entries(t)),
{
    let file = ElfBytes::<AnyEndian>::minimal_parse(data)?;
    match file.section_headers() {
        Some(headers) => Ok(Some(file.section_data_as_strtab(&headers.get(index)?)?)),
        None => Ok(None),
    }
}

/// `elf::string_table::StringTable::get`: the string that starts at `offset`
/// and ends before the next zero byte. It fails where the offset lies outside
/// the table, no zero byte follows, or the bytes are no UTF-8. Nothing is
/// proved of it: the contract claims that the outcome depends on the table and
/// the offset alone.
#[verifier::external_body]
pub(crate) fn string_at(table: &StringTable, offset: usize) -> (r: Result<String, ParseError>)
    ensures
        r is Ok <==> string_table_entries(*table).contains_key(offset as int),
        r matches Ok(s) ==> s@ == string_table_entries(*table)[offset as int],
{
    table.get(offset).map(String::from)
}

} // verus!
