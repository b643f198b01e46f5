//! Portable executable images: the model of their headers, and what is done with it.

use vstd::prelude::*;

pub mod acceptance;
pub mod bytes;
pub mod directories;
pub mod directory_facts;
pub mod export_facts;
pub mod exports;
pub mod fidelity;
pub mod file_facts;
pub mod header_facts;
pub mod headers;
pub mod image;
pub mod import_facts;
pub mod import_section;
pub mod imports;
pub mod layout;
pub mod merge;
pub mod parse;
pub mod rebuild;
pub mod recover;
pub mod recovered;
pub mod section_facts;
pub mod symbols;

verus! {

/// What is known of one stretch of captured memory.
#[derive(Clone, Copy, Debug, PartialEq, Eq, Structural)]
pub struct RegionEvidence {
    pub offset: usize,
    pub size: usize,
    pub readable: bool,
    pub writable: bool,
    pub executable: bool,
}

/// An entry point chosen by the user: never zero.
#[derive(Clone, Copy, Debug, PartialEq, Eq, Structural)]
pub struct EntryPointRva(u32);

impl View for EntryPointRva {
    type V = u32;

    closed spec fn view(&self) -> u32 {
        self.0
    }
}

impl EntryPointRva {
    #[verifier::type_invariant]
    spec fn is_set(self) -> bool {
        self.0 != 0
    }

    /// The entry point at `value`, unless that is zero.
    pub fn new(value: u32) -> (entry_point: Option<EntryPointRva>)
        ensures
            value == 0 ==> entry_point is None,
            value != 0 ==> entry_point is Some && entry_point->0@ == value,
    {
        if value != 0 {
            Some(EntryPointRva(value))
        } else {
            None
        }
    }

    /// The address of the entry point, relative to the image base.
    pub fn get(self) -> (value: u32)
        ensures
            value == self@,
            value != 0,
    {
        proof {
            use_type_invariant(self);
        }
        self.0
    }
}

/// The two formats of the optional header.
#[derive(Clone, Copy, Debug, PartialEq, Eq, Structural)]
pub enum PeKind {
    Pe32,
    Pe32Plus,
}

impl View for PeKind {
    type V = PeKind;

    open spec fn view(&self) -> PeKind {
        *self
    }
}

impl PeKind {
    /// The name that is shown for the format.
    pub open spec fn name(self) -> Seq<char> {
        match self {
            PeKind::Pe32 => "PE32"@,
            PeKind::Pe32Plus => "PE32+"@,
        }
    }

    /// The bytes of an address in an image of this format.
    pub open spec fn pointer_width(self) -> int {
        match self {
            PeKind::Pe32 => 4,
            PeKind::Pe32Plus => 8,
        }
    }

    /// The name that is shown for the format.
    pub fn text(&self) -> (name: &'static str)
        ensures
            name@ == self.name(),
    {
        match self {
            PeKind::Pe32 => "PE32",
            PeKind::Pe32Plus => "PE32+",
        }
    }
}

/// An address relative to the image base.
#[derive(Clone, Copy, Debug, PartialEq, Eq, Structural)]
pub struct Rva(pub u32);

impl Rva {
    /// The address as a number.
    pub fn get(self) -> (value: u32)
        ensures
            value == self.0,
    {
        self.0
    }
}

/// A data directory that is present.
#[derive(Clone, Copy, Debug, PartialEq, Eq, Structural)]
pub struct DataDirectory {
    pub rva: Rva,
    pub size: u32,
}

/// One section header, and where it stands.
#[derive(Clone, Copy, Debug)]
pub struct SectionModel {
    pub header_offset: usize,
    pub name: [u8; 8],
    pub virtual_size: u32,
    pub virtual_address: Rva,
    pub raw_size: u32,
    pub characteristics: u32,
}

/// A section header, seen mathematically.
pub struct SectionView {
    pub header_offset: int,
    pub name: Seq<u8>,
    pub virtual_size: u32,
    pub virtual_address: u32,
    pub raw_size: u32,
    pub characteristics: u32,
}

impl View for SectionModel {
    type V = SectionView;

    open spec fn view(&self) -> SectionView {
        SectionView {
            header_offset: self.header_offset as int,
            name: self.name@,
            virtual_size: self.virtual_size,
            virtual_address: self.virtual_address.0,
            raw_size: self.raw_size,
            characteristics: self.characteristics,
        }
    }
}

impl SectionView {
    /// The bytes that the section takes in memory: the larger of its two sizes.
    pub open spec fn span(self) -> int {
        if self.virtual_size >= self.raw_size {
            self.virtual_size as int
        } else {
            self.raw_size as int
        }
    }

    /// The first address behind the section.
    pub open spec fn end(self) -> int {
        self.virtual_address + self.span()
    }

    /// The section is mapped for execution.
    pub open spec fn executable(self) -> bool {
        self.characteristics & 0x2000_0000 != 0
    }

    /// `rva` lies in the section.
    pub open spec fn contains(self, rva: int) -> bool {
        self.virtual_address <= rva < self.end() && rva < u32::MAX
    }
}

/// The sections as they are seen mathematically.
pub open spec fn section_views(sections: Seq<SectionModel>) -> Seq<SectionView> {
    sections.map_values(|section: SectionModel| section@)
}

/// Two of the sections share an address.
pub open spec fn sections_overlap(sections: Seq<SectionView>) -> bool {
    exists|i: int, j: int|
        #![trigger sections[i], sections[j]]
        0 <= i < j < sections.len() && sections[i].span() > 0 && sections[j].span() > 0
            && sections[i].virtual_address < sections[j].end() && sections[j].virtual_address
            < sections[i].end()
}

/// The largest image that is handled.
pub const MAX_IMAGE_SIZE: usize = 0x4000_0000;

/// The bytes of a section header.
pub const SECTION_HEADER_SIZE: usize = 40;

/// The most sections that an image may have.
pub const MAX_SECTIONS: usize = 128;

/// `value` is a power of two.
pub open spec fn power_of_two(value: int) -> bool
    decreases value,
{
    value == 1 || (value > 1 && value % 2 == 0 && power_of_two(value / 2))
}

/// The headers of an image: what they say, and where their fields stand.
pub struct PeModel {
    kind: PeKind,
    is_dll: bool,
    nt_offset: usize,
    directory_count: usize,
    file_alignment: u32,
    section_alignment: u32,
    image_size: u32,
    sections: Vec<SectionModel>,
    salvaged: bool,
}

/// The headers of an image, seen mathematically.
pub struct PeModelView {
    pub kind: PeKind,
    pub is_dll: bool,
    pub nt_offset: int,
    pub directory_count: int,
    pub file_alignment: u32,
    pub section_alignment: u32,
    pub image_size: u32,
    pub sections: Seq<SectionView>,
    pub salvaged: bool,
}

impl View for PeModel {
    type V = PeModelView;

    closed spec fn view(&self) -> PeModelView {
        PeModelView {
            kind: self.kind,
            is_dll: self.is_dll,
            nt_offset: self.nt_offset as int,
            directory_count: self.directory_count as int,
            file_alignment: self.file_alignment,
            section_alignment: self.section_alignment,
            image_size: self.image_size,
            sections: section_views(self.sections@),
            salvaged: self.salvaged,
        }
    }
}

/// The place of the image base in the optional header.
pub open spec fn image_base_relative(kind: PeKind) -> int {
    match kind {
        PeKind::Pe32 => 28,
        PeKind::Pe32Plus => 24,
    }
}

/// The place of the data directories in the optional header: the least size that it can have.
pub open spec fn directories_relative(kind: PeKind) -> int {
    match kind {
        PeKind::Pe32 => 96,
        PeKind::Pe32Plus => 112,
    }
}

impl PeModelView {
    /// Where the optional header starts.
    pub open spec fn optional_offset(self) -> int {
        self.nt_offset + 24
    }

    /// Where the address of the entry point stands.
    pub open spec fn entry_point_offset(self) -> int {
        self.optional_offset() + 16
    }

    /// Where the image base stands.
    pub open spec fn image_base_offset(self) -> int {
        self.optional_offset() + image_base_relative(self.kind)
    }

    /// Where the image size stands.
    pub open spec fn size_of_image_offset(self) -> int {
        self.optional_offset() + 56
    }

    /// Where the header size stands.
    pub open spec fn size_of_headers_offset(self) -> int {
        self.optional_offset() + 60
    }

    /// Where the data directories start.
    pub open spec fn data_directory_offset(self) -> int {
        self.optional_offset() + directories_relative(self.kind)
    }

    /// Where the number of data directories stands.
    pub open spec fn number_of_directories_offset(self) -> int {
        self.data_directory_offset() - 4
    }

    /// Where the data directory with this index stands.
    pub open spec fn directory_at(self, index: int) -> int {
        self.data_directory_offset() + 8 * index
    }

    /// Where the section headers start.
    pub open spec fn section_table_offset(self) -> int {
        self.sections[0].header_offset
    }

    /// Where the section headers end.
    pub open spec fn section_table_end(self) -> int {
        self.section_table_offset() + SECTION_HEADER_SIZE * self.sections.len()
    }

    /// `rva` lies in a section that is mapped for execution.
    pub open spec fn executable_rva(self, rva: int) -> bool {
        exists|i: int|
            0 <= i < self.sections.len() && #[trigger] self.sections[i].executable()
                && self.sections[i].contains(rva)
    }

    /// What holds of the headers of every image that was accepted.
    pub open spec fn valid(self) -> bool {
        &&& 0 <= self.nt_offset
        &&& 0 <= self.directory_count <= 16
        &&& 0x200 <= self.file_alignment <= 0x1_0000
        &&& power_of_two(self.file_alignment as int)
        &&& self.file_alignment <= self.section_alignment <= 0x10_0000
        &&& power_of_two(self.section_alignment as int)
        &&& 0 < self.image_size <= MAX_IMAGE_SIZE
        &&& 0 < self.sections.len() <= MAX_SECTIONS
        &&& self.data_directory_offset() + 8 * self.directory_count <= self.section_table_offset()
        &&& self.section_table_end() <= usize::MAX
        &&& forall|i: int|
            0 <= i < self.sections.len() ==> (#[trigger] self.sections[i]).header_offset
                == self.section_table_offset() + SECTION_HEADER_SIZE * i
                && self.sections[i].name.len() == 8 && (self.sections[i].span() > 0
                ==> self.sections[i].end() <= self.image_size)
        &&& !sections_overlap(self.sections)
    }
}

impl PeModel {
    /// The model of accepted headers.
    #[verifier::type_invariant]
    pub closed spec fn accepted(self) -> bool {
        self@.valid()
    }

    /// The headers of a model are those of an accepted image.
    pub proof fn lemma_accepted(&self)
        requires
            self.accepted(),
        ensures
            self@.valid(),
    {
    }

    /// The model with these parts.
    pub fn new(
        kind: PeKind,
        is_dll: bool,
        nt_offset: usize,
        directory_count: usize,
        file_alignment: u32,
        section_alignment: u32,
        image_size: u32,
        sections: Vec<SectionModel>,
        salvaged: bool,
    ) -> (model: PeModel)
        requires
            (PeModelView {
                kind,
                is_dll,
                nt_offset: nt_offset as int,
                directory_count: directory_count as int,
                file_alignment,
                section_alignment,
                image_size,
                sections: section_views(sections@),
                salvaged,
            }).valid(),
        ensures
            model@ == (PeModelView {
                kind,
                is_dll,
                nt_offset: nt_offset as int,
                directory_count: directory_count as int,
                file_alignment,
                section_alignment,
                image_size,
                sections: section_views(sections@),
                salvaged,
            }),
    {
        PeModel {
            kind,
            is_dll,
            nt_offset,
            directory_count,
            file_alignment,
            section_alignment,
            image_size,
            sections,
            salvaged,
        }
    }

    /// The format of the optional header.
    pub fn kind(&self) -> (kind: PeKind)
        ensures
            kind == self@.kind,
    {
        self.kind
    }

    /// The image is a library.
    pub fn is_dll(&self) -> (is_dll: bool)
        ensures
            is_dll == self@.is_dll,
    {
        self.is_dll
    }

    /// Where the NT headers start.
    pub fn nt_offset(&self) -> (offset: usize)
        ensures
            offset == self@.nt_offset,
    {
        self.nt_offset
    }

    /// Where the optional header starts.
    pub fn optional_offset(&self) -> (offset: usize)
        ensures
            offset == self@.optional_offset(),
            self@.valid(),
    {
        proof {
            use_type_invariant(self);
        }
        self.nt_offset + 24
    }

    /// Where the data directories start.
    pub fn data_directory_offset(&self) -> (offset: usize)
        ensures
            offset == self@.data_directory_offset(),
            self@.valid(),
    {
        proof {
            use_type_invariant(self);
        }
        match self.kind {
            PeKind::Pe32 => self.nt_offset + 120,
            PeKind::Pe32Plus => self.nt_offset + 136,
        }
    }

    /// Where the section headers end.
    pub fn section_table_end(&self) -> (offset: usize)
        ensures
            offset == self@.section_table_end(),
            self@.valid(),
    {
        proof {
            use_type_invariant(self);
        }
        self.sections[0].header_offset + SECTION_HEADER_SIZE * self.sections.len()
    }

    /// The data directories that the headers have room for.
    pub fn directory_count(&self) -> (count: usize)
        ensures
            count == self@.directory_count,
            count <= 16,
    {
        proof {
            use_type_invariant(self);
        }
        self.directory_count
    }

    /// The alignment of sections in the file.
    pub fn file_alignment(&self) -> (alignment: u32)
        ensures
            alignment == self@.file_alignment,
    {
        self.file_alignment
    }

    /// The alignment of sections in memory.
    pub fn section_alignment(&self) -> (alignment: u32)
        ensures
            alignment == self@.section_alignment,
    {
        self.section_alignment
    }

    /// The size that the headers declare for the image.
    pub fn image_size(&self) -> (size: u32)
        ensures
            size == self@.image_size,
    {
        self.image_size
    }

    /// The sections, in the order of their headers.
    pub fn sections(&self) -> (sections: &Vec<SectionModel>)
        ensures
            section_views(sections@) == self@.sections,
            sections@.len() == self@.sections.len(),
            forall|i: int|
                0 <= i < sections@.len() ==> (#[trigger] sections@[i])@ == self@.sections[i],
    {
        &self.sections
    }

    /// The headers were found by a scan.
    pub fn salvaged(&self) -> (salvaged: bool)
        ensures
            salvaged == self@.salvaged,
    {
        self.salvaged
    }
}

/// An image: its bytes with the model of their headers.
pub struct PeImage<'a> {
    bytes: &'a [u8],
    model: PeModel,
}

} // verus!
