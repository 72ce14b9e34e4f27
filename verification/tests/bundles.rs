//! Whole objects and whole bundles. A writer builds ELF images byte by byte, and
//! a disk in memory answers what the library asks about paths, so that parsing,
//! resolution, analysis, comparison and output are seen working together.

use elfcaps::analysis::{analyze, Confidence};
use elfcaps::diff::{diff, CapabilityChange, EvidenceKey};
use elfcaps::elf::{Binding, Class, ElfError, ElfFile, Endian, SymbolType};
use elfcaps::loader::{Bundle, Contents, Simulation};
use elfcaps::options::{diff_status, parse_command, request, Action, Request, USAGE};
use elfcaps::output::{capabilities_text, diff_json, diff_text, report_json, report_text};
use elfcaps::scan::{
    check_binary, check_inside, scan_root, Collection, Finding, Report, Scan, ScanError,
};
use elfcaps::walk::{Kind, Walk};
use elfcaps::CapDb;
use std::collections::{BTreeMap, BTreeSet, HashSet};
use std::rc::Rc;

// The writer: ELF header, program headers (PT_INTERP, PT_LOAD, PT_DYNAMIC),
// `.dynsym`/`.dynstr`, `.gnu.version`, `.gnu.version_d`, `.gnu.version_r`,
// `.text`, `.rodata`, `.dynamic` and `.shstrtab`. It shares no code with the
// parser.

const STB_LOCAL: u8 = 0;
const STB_GLOBAL: u8 = 1;
const STB_WEAK: u8 = 2;
const STT_NOTYPE: u8 = 0;
const STT_OBJECT: u8 = 1;
const STT_FUNC: u8 = 2;
const STT_TLS: u8 = 6;
const STT_GNU_IFUNC: u8 = 10;

const EM_386: u16 = 3;
const EM_PPC64: u16 = 21;
const EM_X86_64: u16 = 62;

#[derive(Debug, Clone, Copy, PartialEq, Eq)]
enum Bits {
    B32,
    B64,
}

#[derive(Debug, Clone, Copy, PartialEq, Eq)]
enum Order {
    Little,
    Big,
}

#[derive(Debug, Clone, PartialEq, Eq)]
enum Version {
    /// Imported from `file` with version `name` (`.gnu.version_r`).
    Needed { file: String, name: String },
    /// Defined by this object (`.gnu.version_d`).
    Defined(String),
}

#[derive(Debug, Clone, PartialEq, Eq)]
struct SymSpec {
    name: String,
    bind: u8,
    kind: u8,
    defined: bool,
    version: Option<Version>,
    hidden: bool,
}

#[derive(Debug, Clone)]
struct ElfSpec {
    bits: Bits,
    order: Order,
    e_type: u16,
    machine: u16,
    interp: Option<String>,
    needed: Vec<String>,
    soname: Option<String>,
    rpath: Option<String>,
    runpath: Option<String>,
    symbols: Vec<SymSpec>,
    rodata: Vec<String>,
}

impl ElfSpec {
    fn new(bits: Bits, order: Order) -> ElfSpec {
        let machine = match (bits, order) {
            (Bits::B32, _) => EM_386,
            (Bits::B64, Order::Little) => EM_X86_64,
            (Bits::B64, Order::Big) => EM_PPC64,
        };
        ElfSpec {
            bits,
            order,
            e_type: 3,
            machine,
            interp: None,
            needed: Vec::new(),
            soname: None,
            rpath: None,
            runpath: None,
            symbols: Vec::new(),
            rodata: Vec::new(),
        }
    }

    /// A 64-bit little-endian shared library.
    fn lib(soname: &str) -> ElfSpec {
        ElfSpec::new(Bits::B64, Order::Little).soname(soname)
    }

    /// A 64-bit little-endian PIE executable with an interpreter.
    fn exe() -> ElfSpec {
        let mut spec = ElfSpec::new(Bits::B64, Order::Little);
        spec.interp = Some("/lib64/ld-linux-x86-64.so.2".into());
        spec
    }

    fn soname(mut self, name: &str) -> Self {
        self.soname = Some(name.into());
        self
    }

    fn needed(mut self, name: &str) -> Self {
        self.needed.push(name.into());
        self
    }

    fn rpath(mut self, path: &str) -> Self {
        self.rpath = Some(path.into());
        self
    }

    fn runpath(mut self, path: &str) -> Self {
        self.runpath = Some(path.into());
        self
    }

    fn import(self, name: &str) -> Self {
        self.symbol(SymSpec {
            name: name.into(),
            bind: STB_GLOBAL,
            kind: STT_FUNC,
            defined: false,
            version: None,
            hidden: false,
        })
    }

    fn import_versioned(self, name: &str, file: &str, version: &str) -> Self {
        self.symbol(SymSpec {
            name: name.into(),
            bind: STB_GLOBAL,
            kind: STT_FUNC,
            defined: false,
            version: Some(Version::Needed {
                file: file.into(),
                name: version.into(),
            }),
            hidden: false,
        })
    }

    fn export(self, name: &str) -> Self {
        self.symbol(SymSpec {
            name: name.into(),
            bind: STB_GLOBAL,
            kind: STT_FUNC,
            defined: true,
            version: None,
            hidden: false,
        })
    }

    fn symbol(mut self, sym: SymSpec) -> Self {
        self.symbols.push(sym);
        self
    }

    fn rodata(mut self, s: &str) -> Self {
        self.rodata.push(s.into());
        self
    }

    fn build(&self) -> Vec<u8> {
        Builder::new(self).build()
    }
}

fn elf_hash(name: &str) -> u32 {
    let mut h: u32 = 0;
    for b in name.bytes() {
        h = (h << 4).wrapping_add(u32::from(b));
        let g = h & 0xf000_0000;
        if g != 0 {
            h ^= g >> 24;
        }
        h &= !g;
    }
    h
}

struct Out {
    buf: Vec<u8>,
    bits: Bits,
    order: Order,
}

impl Out {
    fn new(bits: Bits, order: Order) -> Out {
        Out {
            buf: Vec::new(),
            bits,
            order,
        }
    }
    fn u8(&mut self, v: u8) {
        self.buf.push(v);
    }
    fn u16(&mut self, v: u16) {
        match self.order {
            Order::Little => self.buf.extend_from_slice(&v.to_le_bytes()),
            Order::Big => self.buf.extend_from_slice(&v.to_be_bytes()),
        }
    }
    fn u32(&mut self, v: u32) {
        match self.order {
            Order::Little => self.buf.extend_from_slice(&v.to_le_bytes()),
            Order::Big => self.buf.extend_from_slice(&v.to_be_bytes()),
        }
    }
    fn u64(&mut self, v: u64) {
        match self.order {
            Order::Little => self.buf.extend_from_slice(&v.to_le_bytes()),
            Order::Big => self.buf.extend_from_slice(&v.to_be_bytes()),
        }
    }
    fn word(&mut self, v: u64) {
        match self.bits {
            Bits::B32 => self.u32(u32::try_from(v).expect("value fits ELF32 word")),
            Bits::B64 => self.u64(v),
        }
    }
}

#[derive(Default)]
struct StrTab {
    bytes: Vec<u8>,
    offsets: BTreeMap<String, u32>,
}

impl StrTab {
    fn new() -> StrTab {
        StrTab {
            bytes: vec![0],
            offsets: BTreeMap::new(),
        }
    }
    fn add(&mut self, s: &str) -> u32 {
        if s.is_empty() {
            return 0;
        }
        if let Some(&off) = self.offsets.get(s) {
            return off;
        }
        let off = self.bytes.len() as u32;
        self.bytes.extend_from_slice(s.as_bytes());
        self.bytes.push(0);
        self.offsets.insert(s.to_string(), off);
        off
    }
}

struct SectionOut {
    name: String,
    kind: u32,
    flags: u64,
    data: Vec<u8>,
    link: u32,
    info: u32,
    align: u64,
    entsize: u64,
    offset: u64,
}

struct Builder<'a> {
    spec: &'a ElfSpec,
    w: u64,
}

const SHT_PROGBITS: u32 = 1;
const SHT_STRTAB: u32 = 3;
const SHT_DYNAMIC: u32 = 6;
const SHT_DYNSYM: u32 = 11;
const SHT_GNU_VERDEF: u32 = 0x6fff_fffd;
const SHT_GNU_VERNEED: u32 = 0x6fff_fffe;
const SHT_GNU_VERSYM: u32 = 0x6fff_ffff;

impl<'a> Builder<'a> {
    fn new(spec: &'a ElfSpec) -> Builder<'a> {
        let w = match spec.bits {
            Bits::B32 => 4,
            Bits::B64 => 8,
        };
        Builder { spec, w }
    }

    fn out(&self) -> Out {
        Out::new(self.spec.bits, self.spec.order)
    }

    fn build(&self) -> Vec<u8> {
        let spec = self.spec;
        let mut dynstr = StrTab::new();

        // Version indices: 1 is the base definition, then defined versions,
        // then needed versions grouped by file, as binutils lays them out.
        let mut def_names: Vec<String> = Vec::new();
        let mut need_files: BTreeMap<String, Vec<String>> = BTreeMap::new();
        for sym in &spec.symbols {
            match &sym.version {
                Some(Version::Defined(name)) if !def_names.contains(name) => {
                    def_names.push(name.clone())
                }
                Some(Version::Needed { file, name }) => {
                    let names = need_files.entry(file.clone()).or_default();
                    if !names.contains(name) {
                        names.push(name.clone());
                    }
                }
                _ => {}
            }
        }
        let mut index_of: BTreeMap<(Option<String>, String), u16> = BTreeMap::new();
        let mut next_index = 2u16;
        for name in &def_names {
            index_of.insert((None, name.clone()), next_index);
            next_index += 1;
        }
        for (file, names) in &need_files {
            for name in names {
                index_of.insert((Some(file.clone()), name.clone()), next_index);
                next_index += 1;
            }
        }
        let versioned = !index_of.is_empty();

        for n in &spec.needed {
            dynstr.add(n);
        }
        for s in [&spec.soname, &spec.rpath, &spec.runpath]
            .into_iter()
            .flatten()
        {
            dynstr.add(s);
        }
        let base_name = spec.soname.clone().unwrap_or_else(|| "base".into());

        // Section list; indices are fixed before contents reference them.
        let mut names: Vec<&str> = vec![""];
        if spec.interp.is_some() {
            names.push(".interp");
        }
        names.push(".dynsym");
        names.push(".dynstr");
        if versioned {
            names.push(".gnu.version");
        }
        if !def_names.is_empty() {
            names.push(".gnu.version_d");
        }
        if !need_files.is_empty() {
            names.push(".gnu.version_r");
        }
        names.extend([".text", ".rodata", ".dynamic", ".shstrtab"]);
        let idx = |n: &str| names.iter().position(|x| *x == n).unwrap() as u32;

        // .dynsym
        let mut dynsym = self.out();
        let symsize = if self.w == 4 { 16 } else { 24 };
        dynsym.buf.resize(symsize, 0);
        let text_idx = idx(".text") as u16;
        let mut versym = self.out();
        versym.u16(0);
        let local_count = 1 + spec.symbols.iter().filter(|s| s.bind == STB_LOCAL).count();
        for (i, sym) in spec.symbols.iter().enumerate() {
            let name = dynstr.add(&sym.name);
            let info = (sym.bind << 4) | sym.kind;
            let shndx = if sym.defined { text_idx } else { 0 };
            let value = if sym.defined {
                0x1000 + i as u64 * 4
            } else {
                0
            };
            let size = if sym.defined { 4 } else { 0 };
            match spec.bits {
                Bits::B32 => {
                    dynsym.u32(name);
                    dynsym.u32(value as u32);
                    dynsym.u32(size);
                    dynsym.u8(info);
                    dynsym.u8(0);
                    dynsym.u16(shndx);
                }
                Bits::B64 => {
                    dynsym.u32(name);
                    dynsym.u8(info);
                    dynsym.u8(0);
                    dynsym.u16(shndx);
                    dynsym.u64(value);
                    dynsym.u64(u64::from(size));
                }
            }
            let v = match &sym.version {
                None if sym.bind == STB_LOCAL => 0,
                None => 1,
                Some(Version::Defined(n)) => index_of[&(None, n.clone())],
                Some(Version::Needed { file, name }) => {
                    index_of[&(Some(file.clone()), name.clone())]
                }
            };
            versym.u16(if sym.hidden { v | 0x8000 } else { v });
        }

        // .gnu.version_d: base entry plus one per defined version.
        let mut verdef = self.out();
        if !def_names.is_empty() {
            let mut entries = vec![(1u16, 1u16, base_name.clone())];
            for name in &def_names {
                entries.push((0, index_of[&(None, name.clone())], name.clone()));
            }
            let count = entries.len();
            for (i, (flags, ndx, name)) in entries.into_iter().enumerate() {
                let name_off = dynstr.add(&name);
                verdef.u16(1);
                verdef.u16(flags);
                verdef.u16(ndx);
                verdef.u16(1);
                verdef.u32(elf_hash(&name));
                verdef.u32(20);
                verdef.u32(if i + 1 == count { 0 } else { 28 });
                verdef.u32(name_off);
                verdef.u32(0);
            }
        }

        // .gnu.version_r
        let mut verneed = self.out();
        let file_count = need_files.len();
        for (i, (file, names_for_file)) in need_files.iter().enumerate() {
            let file_off = dynstr.add(file);
            let cnt = names_for_file.len();
            verneed.u16(1);
            verneed.u16(cnt as u16);
            verneed.u32(file_off);
            verneed.u32(16);
            verneed.u32(if i + 1 == file_count {
                0
            } else {
                16 + 16 * cnt as u32
            });
            for (j, name) in names_for_file.iter().enumerate() {
                let name_off = dynstr.add(name);
                verneed.u32(elf_hash(name));
                verneed.u16(0);
                verneed.u16(index_of[&(Some(file.clone()), name.clone())]);
                verneed.u32(name_off);
                verneed.u32(if j + 1 == cnt { 0 } else { 16 });
            }
        }

        let mut rodata = Vec::new();
        for s in &spec.rodata {
            rodata.extend_from_slice(s.as_bytes());
            rodata.push(0);
        }

        let mut shstrtab = StrTab::new();
        for name in &names {
            shstrtab.add(name);
        }

        let mut sections: Vec<SectionOut> = Vec::new();
        let mut push = |name: &str, kind, flags, data, link, info, align, entsize| {
            sections.push(SectionOut {
                name: name.to_string(),
                kind,
                flags,
                data,
                link,
                info,
                align,
                entsize,
                offset: 0,
            })
        };
        let dynstr_idx = idx(".dynstr");
        push("", 0, 0, Vec::new(), 0, 0, 0, 0);
        if let Some(interp) = &spec.interp {
            let mut data = interp.as_bytes().to_vec();
            data.push(0);
            push(".interp", SHT_PROGBITS, 2, data, 0, 0, 1, 0);
        }
        push(
            ".dynsym",
            SHT_DYNSYM,
            2,
            dynsym.buf,
            dynstr_idx,
            local_count as u32,
            self.w,
            symsize as u64,
        );
        // Every string (symbols, versions, dynamic entries) is already in .dynstr.
        push(".dynstr", SHT_STRTAB, 2, dynstr.bytes.clone(), 0, 0, 1, 0);
        if versioned {
            push(
                ".gnu.version",
                SHT_GNU_VERSYM,
                2,
                versym.buf,
                idx(".dynsym"),
                0,
                2,
                2,
            );
        }
        if !def_names.is_empty() {
            push(
                ".gnu.version_d",
                SHT_GNU_VERDEF,
                2,
                verdef.buf,
                dynstr_idx,
                def_names.len() as u32 + 1,
                self.w,
                0,
            );
        }
        if !need_files.is_empty() {
            push(
                ".gnu.version_r",
                SHT_GNU_VERNEED,
                2,
                verneed.buf,
                dynstr_idx,
                file_count as u32,
                self.w,
                0,
            );
        }
        push(".text", SHT_PROGBITS, 6, vec![0xc3; 64], 0, 0, 16, 0);
        push(".rodata", SHT_PROGBITS, 2, rodata, 0, 0, 1, 0);
        let dyn_entries = spec.needed.len()
            + [&spec.soname, &spec.rpath, &spec.runpath]
                .iter()
                .filter(|s| s.is_some())
                .count()
            + 5;
        push(
            ".dynamic",
            SHT_DYNAMIC,
            3,
            vec![0; dyn_entries * 2 * self.w as usize],
            dynstr_idx,
            0,
            self.w,
            2 * self.w,
        );
        push(
            ".shstrtab",
            SHT_STRTAB,
            0,
            shstrtab.bytes.clone(),
            0,
            0,
            1,
            0,
        );

        // Layout: headers, then contents in order, then the section table.
        let ehsize = if self.w == 4 { 52 } else { 64 };
        let phentsize = if self.w == 4 { 32 } else { 56 };
        let phnum = 2 + u64::from(spec.interp.is_some());
        let mut cursor = ehsize + phnum * phentsize;
        for s in sections.iter_mut().skip(1) {
            let align = s.align.max(1);
            cursor = cursor.div_ceil(align) * align;
            s.offset = cursor;
            cursor += s.data.len() as u64;
        }
        let shoff = cursor.div_ceil(self.w) * self.w;

        // Fill .dynamic now that addresses (== file offsets) are known.
        let dynstr_addr = sections[idx(".dynstr") as usize].offset;
        let dynsym_addr = sections[idx(".dynsym") as usize].offset;
        let text_addr = sections[idx(".text") as usize].offset;
        let mut dynamic = self.out();
        let mut dyn_entry = |tag: u64, val: u64| {
            dynamic.word(tag);
            dynamic.word(val);
        };
        for n in &spec.needed {
            dyn_entry(1, u64::from(dynstr.add(n)));
        }
        if let Some(s) = &spec.soname {
            dyn_entry(14, u64::from(dynstr.add(s)));
        }
        if let Some(s) = &spec.rpath {
            dyn_entry(15, u64::from(dynstr.add(s)));
        }
        if let Some(s) = &spec.runpath {
            dyn_entry(29, u64::from(dynstr.add(s)));
        }
        dyn_entry(5, dynstr_addr);
        dyn_entry(6, dynsym_addr);
        dyn_entry(10, dynstr.bytes.len() as u64);
        dyn_entry(11, symsize as u64);
        dyn_entry(0, 0);
        let dynamic_idx = idx(".dynamic") as usize;
        assert_eq!(dynamic.buf.len(), sections[dynamic_idx].data.len());
        sections[dynamic_idx].data = dynamic.buf;

        let mut out = self.out();
        out.buf.extend_from_slice(b"\x7fELF");
        out.u8(if self.w == 4 { 1 } else { 2 });
        out.u8(match spec.order {
            Order::Little => 1,
            Order::Big => 2,
        });
        out.u8(1);
        out.buf.resize(16, 0);
        out.u16(spec.e_type);
        out.u16(spec.machine);
        out.u32(1);
        out.word(text_addr);
        out.word(ehsize);
        out.word(shoff);
        out.u32(0);
        out.u16(ehsize as u16);
        out.u16(phentsize as u16);
        out.u16(phnum as u16);
        out.u16(if self.w == 4 { 40 } else { 64 });
        out.u16(sections.len() as u16);
        out.u16(idx(".shstrtab") as u16);

        let load_end = sections[idx(".dynamic") as usize].offset
            + sections[idx(".dynamic") as usize].data.len() as u64;
        let mut phdr = |kind: u32, flags: u32, offset: u64, size: u64, align: u64| match spec.bits {
            Bits::B32 => {
                out.u32(kind);
                out.u32(offset as u32);
                out.u32(offset as u32);
                out.u32(offset as u32);
                out.u32(size as u32);
                out.u32(size as u32);
                out.u32(flags);
                out.u32(align as u32);
            }
            Bits::B64 => {
                out.u32(kind);
                out.u32(flags);
                out.u64(offset);
                out.u64(offset);
                out.u64(offset);
                out.u64(size);
                out.u64(size);
                out.u64(align);
            }
        };
        if spec.interp.is_some() {
            let s = &sections[idx(".interp") as usize];
            phdr(3, 4, s.offset, s.data.len() as u64, 1);
        }
        phdr(1, 7, 0, load_end, 0x1000);
        let d = &sections[dynamic_idx];
        phdr(2, 6, d.offset, d.data.len() as u64, self.w);

        for s in sections.iter().skip(1) {
            out.buf.resize(s.offset as usize, 0);
            out.buf.extend_from_slice(&s.data);
        }
        out.buf.resize(shoff as usize, 0);
        for s in &sections {
            out.u32(shstrtab.add(&s.name));
            out.u32(s.kind);
            out.word(s.flags);
            out.word(if s.flags & 2 != 0 { s.offset } else { 0 });
            out.word(s.offset);
            out.word(s.data.len() as u64);
            out.u32(s.link);
            out.u32(s.info);
            out.word(s.align);
            out.word(s.entsize);
        }
        out.buf
    }
}

// A disk in memory: files with their bytes, symlinks with their targets, and the
// directories that these paths run through. The working directory is `/`.

#[derive(Default)]
struct Disk {
    files: BTreeMap<String, Vec<u8>>,
    links: BTreeMap<String, String>,
}

const NOT_FOUND: &str = "No such file or directory (os error 2)";

impl Disk {
    fn new() -> Disk {
        Disk::default()
    }

    fn write(&mut self, path: &str, data: &[u8]) {
        self.files.insert(path.to_string(), data.to_vec());
    }

    fn link(&mut self, path: &str, target: &str) {
        self.links.insert(path.to_string(), target.to_string());
    }

    fn is_dir(&self, path: &str) -> bool {
        let prefix = format!("{}/", path.trim_end_matches('/'));
        self.files
            .keys()
            .chain(self.links.keys())
            .any(|p| p.starts_with(&prefix))
    }

    /// The path with `.`, `..` and symlinks resolved, if there is such a file or
    /// directory.
    fn canonical(&self, path: &str) -> Option<String> {
        let mut todo: Vec<String> = path.split('/').rev().map(str::to_string).collect();
        let mut at: Vec<String> = Vec::new();
        let mut steps: usize = 0;
        while let Some(part) = todo.pop() {
            steps += 1;
            if steps > 1000 {
                return None;
            }
            let here = format!("/{}", at.join("/"));
            if !self.is_dir(&here) {
                return None;
            }
            match part.as_str() {
                "" | "." => {}
                ".." => {
                    at.pop();
                }
                name => {
                    let next = format!("{}/{name}", here.trim_end_matches('/'));
                    if let Some(target) = self.links.get(&next) {
                        if target.starts_with('/') {
                            at.clear();
                        }
                        todo.extend(target.split('/').rev().map(str::to_string));
                    } else if self.files.contains_key(&next) || self.is_dir(&next) {
                        at.push(name.to_string());
                    } else {
                        return None;
                    }
                }
            }
        }
        Some(format!("/{}", at.join("/")))
    }

    fn contents(&self, canonical: &str) -> Contents {
        match self.files.get(canonical) {
            Some(data) => Contents::Data(data.clone()),
            None => Contents::NotAFile,
        }
    }

    /// What is in a directory, with its kind, last name first.
    fn entries(&self, dir: &str) -> Vec<(String, Kind)> {
        let prefix = format!("{}/", dir.trim_end_matches('/'));
        let names: BTreeSet<String> = self
            .files
            .keys()
            .chain(self.links.keys())
            .filter_map(|p| p.strip_prefix(&prefix))
            .map(|rest| rest.split('/').next().unwrap().to_string())
            .collect();
        names
            .into_iter()
            .rev()
            .map(|name| {
                let path = format!("{prefix}{name}");
                let kind = if self.links.contains_key(&path) {
                    Kind::Other
                } else if self.files.contains_key(&path) {
                    Kind::File
                } else {
                    Kind::Directory
                };
                (path, kind)
            })
            .collect()
    }

    fn collect(&self, dir: &str, collection: &mut Collection) {
        let mut walk = Walk::new(dir.to_string());
        while let Some(current) = walk.next_dir() {
            for (path, kind) in self.entries(&current) {
                walk.add_entry(path, kind);
            }
        }
        let (files, errors) = walk.finish();
        for file in &files {
            let canonical = self.canonical(file);
            let contents = self.contents(canonical.as_deref().unwrap_or(""));
            collection.add_file(file, canonical.as_deref(), &contents);
        }
        for (path, message) in errors {
            collection.add_error(path, message);
        }
    }

    fn scan(&self, target: &str, root: Option<&str>, db: &CapDb) -> Result<Report, ScanError> {
        let missing = |path: &str| ScanError::Io {
            path: path.to_string(),
            message: NOT_FOUND.to_string(),
        };
        let canonical = self.canonical(target).ok_or_else(|| missing(target))?;
        let is_dir = self.is_dir(&canonical);
        let root_dir = scan_root(target, root, is_dir);
        let canonical_root = self.canonical(&root_dir).ok_or_else(|| missing(&root_dir))?;
        check_inside(target, &canonical, &canonical_root)?;
        let mut collection = Collection::new(Bundle::new(&canonical_root));
        if is_dir {
            self.collect(&canonical, &mut collection);
        } else {
            check_binary(target, &self.files[&canonical])?;
            let contents = self.contents(&canonical);
            collection.add_file(&canonical, Some(&canonical), &contents);
        }
        let mut scan = Scan::new(collection);
        while let Some(path) = scan.advance() {
            let canonical = self.canonical(&path);
            let contents = self.contents(canonical.as_deref().unwrap_or(""));
            scan.open(&path, canonical.as_deref(), &contents);
        }
        Ok(scan.report(&root_dir, db))
    }

    fn load_db(&self, path: Option<&str>) -> Result<CapDb, String> {
        let Some(path) = path else {
            return Ok(CapDb::builtin());
        };
        let canonical = self
            .canonical(path)
            .ok_or_else(|| format!("{path}: {NOT_FOUND}"))?;
        let text = String::from_utf8(self.files[&canonical].clone()).unwrap();
        CapDb::parse(&text).map_err(|e| format!("{path}: {}", e.message()))
    }

    fn run(&self, args: &[String]) -> Result<(u8, String), String> {
        let invocation = parse_command(args)?;
        let db = self.load_db(invocation.options.db.as_deref())?;
        match invocation.action()? {
            Action::Scan { target, root, json } => {
                let report = self
                    .scan(&target, root.as_deref(), &db)
                    .map_err(|e| e.message())?;
                let text = if json {
                    report_json(&report)
                } else {
                    report_text(&report, &db)
                };
                Ok((0, text))
            }
            Action::Diff {
                first,
                second,
                json,
            } => {
                let a = self.scan(&first, None, &db).map_err(|e| e.message())?;
                let b = self.scan(&second, None, &db).map_err(|e| e.message())?;
                let d = diff(&a, &b);
                let text = if json {
                    diff_json(&d)
                } else {
                    diff_text(&d, &first, &second)
                };
                Ok((diff_status(&d), text))
            }
            Action::Caps => Ok((0, capabilities_text(&db))),
        }
    }

    /// The whole program on this disk.
    fn elfcaps(&self, args: &[&str]) -> Output {
        let args: Vec<String> = args.iter().map(|a| a.to_string()).collect();
        match request(&args) {
            Request::Usage(status) => Output::success(status, USAGE.to_string()),
            Request::Version => Output::success(0, "elfcaps 0.1.0\n".to_string()),
            Request::Run => match self.run(&args) {
                Ok((status, stdout)) => Output::success(status, stdout),
                Err(message) => Output {
                    status: 2,
                    stdout: String::new(),
                    stderr: format!("elfcaps: {message}\n\n{USAGE}\n"),
                },
            },
        }
    }
}

#[derive(Debug)]
struct Output {
    status: u8,
    stdout: String,
    stderr: String,
}

impl Output {
    fn success(status: u8, stdout: String) -> Output {
        Output {
            status,
            stdout,
            stderr: String::new(),
        }
    }
}

/// A directory on a disk of its own.
struct Tree {
    disk: Disk,
    path: String,
}

impl Tree {
    fn new(name: &str) -> Tree {
        Tree {
            disk: Disk::new(),
            path: format!("/{name}"),
        }
    }

    fn write(&mut self, rel: &str, data: &[u8]) -> String {
        let path = format!("{}/{rel}", self.path);
        self.disk.write(&path, data);
        path
    }
}

fn builtin() -> CapDb {
    CapDb::builtin()
}

/// A small generator of pseudorandom numbers, the same on every run.
struct Rng(u64);

impl Rng {
    fn new(seed: u64) -> Rng {
        Rng(seed)
    }

    fn next_u64(&mut self) -> u64 {
        self.0 = self.0.wrapping_add(0x9e37_79b9_7f4a_7c15);
        let mut z = self.0;
        z = (z ^ (z >> 30)).wrapping_mul(0xbf58_476d_1ce4_e5b9);
        z = (z ^ (z >> 27)).wrapping_mul(0x94d0_49bb_1331_11eb);
        z ^ (z >> 31)
    }

    fn below(&mut self, n: usize) -> usize {
        (self.next_u64() % n as u64) as usize
    }

    fn chance(&mut self, n: usize) -> bool {
        self.below(n) == 0
    }
}

// Round trips through the writer and the parser.

const FORMATS: [(Bits, Order, Class, Endian); 3] = [
    (Bits::B32, Order::Little, Class::Elf32, Endian::Little),
    (Bits::B64, Order::Little, Class::Elf64, Endian::Little),
    (Bits::B64, Order::Big, Class::Elf64, Endian::Big),
];

fn expected_binding(bind: u8) -> Binding {
    match bind {
        STB_LOCAL => Binding::Local,
        STB_GLOBAL => Binding::Global,
        STB_WEAK => Binding::Weak,
        other => panic!("writer test uses unexpected binding {other}"),
    }
}

fn expected_type(kind: u8) -> SymbolType {
    match kind {
        STT_NOTYPE => SymbolType::NoType,
        STT_OBJECT => SymbolType::Object,
        STT_FUNC => SymbolType::Func,
        STT_TLS => SymbolType::Tls,
        STT_GNU_IFUNC => SymbolType::GnuIfunc,
        other => panic!("writer test uses unexpected type {other}"),
    }
}

fn assert_roundtrip(spec: &ElfSpec) {
    let bytes = spec.build();
    let elf = ElfFile::parse(&bytes).unwrap_or_else(|e| panic!("parse failed: {}", e.message()));
    assert_eq!(elf.needed, spec.needed);
    assert_eq!(elf.soname, spec.soname);
    assert_eq!(elf.rpath, spec.rpath);
    assert_eq!(elf.runpath, spec.runpath);
    assert_eq!(elf.machine, spec.machine);
    assert_eq!(elf.interpreter, spec.interp);
    assert_eq!(elf.symbols.len(), spec.symbols.len(), "symbol count");
    for (got, want) in elf.symbols.iter().zip(&spec.symbols) {
        assert_eq!(got.name, want.name);
        assert_eq!(got.binding, expected_binding(want.bind), "{}", want.name);
        assert_eq!(got.kind, expected_type(want.kind), "{}", want.name);
        assert_eq!(got.is_undefined(), !want.defined, "{}", want.name);
        match (&got.version, &want.version) {
            (None, None) => {}
            (Some(v), Some(Version::Needed { file, name })) => {
                assert_eq!(&v.name, name);
                assert_eq!(v.file.as_deref(), Some(file.as_str()));
                assert_eq!(v.hidden, want.hidden);
            }
            (Some(v), Some(Version::Defined(name))) => {
                assert_eq!(&v.name, name);
                assert_eq!(v.file, None);
                assert_eq!(v.hidden, want.hidden);
            }
            (got, want) => panic!(
                "version mismatch for {:?}: {got:?} vs {want:?}",
                elf.symbols
            ),
        }
    }
    let mut rodata = spec.rodata.clone();
    rodata.retain(|s| s.len() >= 4);
    for s in &rodata {
        assert!(elf.rodata_strings.contains(s), "missing rodata string {s}");
    }
}

fn sym(
    name: &str,
    bind: u8,
    kind: u8,
    defined: bool,
    version: Option<Version>,
    hidden: bool,
) -> SymSpec {
    SymSpec {
        name: name.into(),
        bind,
        kind,
        defined,
        version,
        hidden,
    }
}

#[test]
fn handwritten_objects_roundtrip_in_all_formats() {
    for (bits, order, class, endian) in FORMATS {
        let mut spec = ElfSpec::new(bits, order)
            .soname("libQt5XcbQpa.so.5")
            .needed("libxcb.so.1")
            .needed("libc.so.6")
            .rpath("$ORIGIN/../lib:/opt/app/lib")
            .runpath("${ORIGIN}")
            .rodata("libX11.so.6")
            .rodata("XConvertSelection")
            .symbol(sym("local_helper", STB_LOCAL, STT_FUNC, true, None, false))
            .symbol(sym(
                "xcb_convert_selection",
                STB_GLOBAL,
                STT_FUNC,
                false,
                Some(Version::Needed {
                    file: "libxcb.so.1".into(),
                    name: "XCB_1.0".into(),
                }),
                false,
            ))
            .symbol(sym(
                "memcpy",
                STB_GLOBAL,
                STT_FUNC,
                false,
                Some(Version::Needed {
                    file: "libc.so.6".into(),
                    name: "GLIBC_2.14".into(),
                }),
                false,
            ))
            .symbol(sym(
                "stderr",
                STB_GLOBAL,
                STT_OBJECT,
                false,
                Some(Version::Needed {
                    file: "libc.so.6".into(),
                    name: "GLIBC_2.2.5".into(),
                }),
                false,
            ))
            .symbol(sym(
                "__gmon_start__",
                STB_WEAK,
                STT_NOTYPE,
                false,
                None,
                false,
            ))
            .symbol(sym(
                "qt_plugin_instance",
                STB_GLOBAL,
                STT_FUNC,
                true,
                Some(Version::Defined("Qt_5".into())),
                false,
            ))
            .symbol(sym(
                "qt_old_api",
                STB_GLOBAL,
                STT_FUNC,
                true,
                Some(Version::Defined("Qt_5_PRIVATE".into())),
                true,
            ))
            .symbol(sym("tls_state", STB_GLOBAL, STT_TLS, true, None, false))
            .symbol(sym("resolver", STB_WEAK, STT_GNU_IFUNC, true, None, false));
        spec.interp = Some("/lib/ld-linux.so.2".into());
        let elf = ElfFile::parse(&spec.build()).unwrap();
        assert_eq!(elf.class, class);
        assert_eq!(elf.endian, endian);
        assert!(elf.is_executable(), "ET_DYN with PT_INTERP is a PIE");
        assert_roundtrip(&spec);
    }
}

#[test]
fn objects_without_versions_or_dynamic_entries_roundtrip() {
    for (bits, order, _, _) in FORMATS {
        assert_roundtrip(&ElfSpec::new(bits, order));
        assert_roundtrip(&ElfSpec::new(bits, order).import("dlopen").export("main"));
    }
}

fn random_name(rng: &mut Rng) -> String {
    const ALPHABET: &[u8] = b"abcdefghijklmnopqrstuvwxyzABCDEFGHIJKLMNOPQRSTUVWXYZ_0123456789";
    let len = 1 + rng.below(24);
    let mut name: String = (0..len)
        .map(|_| ALPHABET[rng.below(ALPHABET.len())] as char)
        .collect();
    name.insert(0, '_');
    name
}

#[test]
fn randomly_generated_symbol_tables_roundtrip() {
    let bindings = [STB_GLOBAL, STB_WEAK];
    let kinds = [STT_NOTYPE, STT_OBJECT, STT_FUNC, STT_TLS, STT_GNU_IFUNC];
    let files = ["libc.so.6", "libX11.so.6", "libxcb.so.1"];
    let mut rng = Rng::new(0x05ee_de1f);
    for case in 0..300 {
        let (bits, order, _, _) = FORMATS[case % FORMATS.len()];
        let mut spec = ElfSpec::new(bits, order);
        for _ in 0..rng.below(4) {
            spec = spec.needed(&format!("lib{}.so", random_name(&mut rng)));
        }
        if rng.chance(2) {
            spec = spec.soname(&format!("lib{}.so.1", random_name(&mut rng)));
        }
        if rng.chance(3) {
            spec = spec.rpath("$ORIGIN/lib");
        }
        if rng.chance(3) {
            spec = spec.runpath("$ORIGIN/../lib64:/usr/local/lib");
        }
        let locals = rng.below(3);
        for _ in 0..locals {
            let name = random_name(&mut rng);
            spec = spec.symbol(sym(&name, STB_LOCAL, STT_FUNC, true, None, false));
        }
        for _ in 0..rng.below(40) {
            let defined = rng.chance(2);
            let version = match rng.below(3) {
                0 => None,
                1 if defined => Some(Version::Defined(format!("V_{}", rng.below(4)))),
                _ if defined => None,
                _ => Some(Version::Needed {
                    file: files[rng.below(files.len())].into(),
                    name: format!("VER_{}", rng.below(5)),
                }),
            };
            let hidden = version.is_some() && rng.chance(4);
            let name = random_name(&mut rng);
            spec = spec.symbol(sym(
                &name,
                bindings[rng.below(2)],
                kinds[rng.below(kinds.len())],
                defined,
                version,
                hidden,
            ));
        }
        for _ in 0..rng.below(5) {
            spec = spec.rodata(&random_name(&mut rng));
        }
        assert_roundtrip(&spec);
    }
}

// Resolution inside a bundle.

fn run(tree: &Tree) -> Report {
    tree.disk
        .scan(&tree.path, None, &builtin())
        .unwrap_or_else(|e| panic!("scan failed: {}", e.message()))
}

fn needed_of<'a>(report: &'a Report, object: &str, name: &str) -> Option<&'a str> {
    let obj = report
        .objects
        .iter()
        .find(|o| o.path == object)
        .unwrap_or_else(|| panic!("{object} not in report: {:#?}", report.objects));
    obj.needed
        .iter()
        .find(|n| n.name == name)
        .unwrap_or_else(|| panic!("{object} has no DT_NEEDED {name}"))
        .resolved
        .as_deref()
}

fn findings_for<'a>(report: &'a Report, capability: &str) -> Vec<&'a Finding> {
    report
        .findings
        .iter()
        .filter(|f| f.capability == capability)
        .collect()
}

fn chain(parts: &[&str]) -> Vec<String> {
    parts.iter().map(|s| s.to_string()).collect()
}

#[test]
fn capability_is_credited_to_the_importing_library_through_the_chain() {
    let mut dir = Tree::new("chain");
    dir.write(
        "bin/main",
        &ElfSpec::exe()
            .runpath("$ORIGIN/../lib")
            .needed("libA.so")
            .import("puts")
            .build(),
    );
    dir.write(
        "lib/libA.so",
        &ElfSpec::lib("libA.so")
            .runpath("$ORIGIN")
            .needed("libB.so")
            .import("malloc")
            .build(),
    );
    dir.write(
        "lib/libB.so",
        &ElfSpec::lib("libB.so")
            .needed("libxcb.so.1")
            .import_versioned("xcb_convert_selection", "libxcb.so.1", "XCB_1.0")
            .build(),
    );

    let report = run(&dir);
    let hits = findings_for(&report, "selection-read");
    assert_eq!(hits.len(), 1, "{:#?}", report.findings);
    let hit = hits[0];
    assert_eq!(hit.object, "lib/libB.so");
    assert_eq!(hit.symbol, "xcb_convert_selection");
    assert_eq!(hit.version.as_deref(), Some("XCB_1.0"));
    assert_eq!(hit.confidence, Confidence::Direct);
    assert_eq!(
        hit.reached_via,
        [chain(&["bin/main", "lib/libA.so", "lib/libB.so"])]
    );
    assert_eq!(
        report.findings.len(),
        1,
        "main and libA import nothing sensitive"
    );
    assert_eq!(
        needed_of(&report, "bin/main", "libA.so"),
        Some("lib/libA.so")
    );
    assert_eq!(needed_of(&report, "lib/libB.so", "libxcb.so.1"), None);
}

#[test]
fn bundled_provider_defining_the_symbol_is_not_flagged() {
    let mut dir = Tree::new("provider");
    dir.write(
        "app",
        &ElfSpec::exe()
            .rpath("$ORIGIN/lib")
            .needed("libxcb.so.1")
            .import("xcb_get_image")
            .build(),
    );
    dir.write(
        "lib/libxcb.so.1",
        &ElfSpec::lib("libxcb.so.1")
            .export("xcb_get_image")
            .export("xcb_convert_selection")
            .build(),
    );
    let report = run(&dir);
    assert_eq!(
        needed_of(&report, "app", "libxcb.so.1"),
        Some("lib/libxcb.so.1")
    );
    let objects: Vec<&str> = report.findings.iter().map(|f| f.object.as_str()).collect();
    assert_eq!(objects, ["app"]);
    assert_eq!(report.findings[0].capability, "screen-capture");
    assert_eq!(report.findings[0].reached_via, [chain(&["app"])]);
}

/// bin/main has both RPATH=$ORIGIN/rp and RUNPATH=$ORIGIN/run, and a
/// different libfoo.so sits in each directory.
fn precedence_bundle(with_runpath: bool) -> Tree {
    let mut dir = Tree::new("precedence");
    let mut main = ElfSpec::exe().rpath("$ORIGIN/rp").needed("libfoo.so");
    if with_runpath {
        main = main.runpath("$ORIGIN/run");
    }
    dir.write("bin/main", &main.build());
    dir.write(
        "bin/rp/libfoo.so",
        &ElfSpec::lib("libfoo.so").import("XGrabKeyboard").build(),
    );
    dir.write(
        "bin/run/libfoo.so",
        &ElfSpec::lib("libfoo.so").import("xcb_get_image").build(),
    );
    dir
}

#[test]
fn runpath_takes_precedence_over_rpath() {
    let dir = precedence_bundle(true);
    let report = run(&dir);
    assert_eq!(
        needed_of(&report, "bin/main", "libfoo.so"),
        Some("bin/run/libfoo.so")
    );
    let capture = findings_for(&report, "screen-capture");
    assert_eq!(capture.len(), 1);
    assert_eq!(
        capture[0].reached_via,
        [chain(&["bin/main", "bin/run/libfoo.so"])]
    );
    // The RPATH copy is still scanned, but nothing loads it.
    let grab = findings_for(&report, "keyboard-grab");
    assert_eq!(grab.len(), 1);
    assert_eq!(grab[0].reached_via, [chain(&["bin/rp/libfoo.so"])]);

    let dir = precedence_bundle(false);
    let report = run(&dir);
    assert_eq!(
        needed_of(&report, "bin/main", "libfoo.so"),
        Some("bin/rp/libfoo.so")
    );
}

fn inheritance_bundle(main: ElfSpec, lib_a: ElfSpec) -> Tree {
    let mut dir = Tree::new("inherit");
    dir.write("bin/main", &main.needed("libA.so").build());
    dir.write("deps/libA.so", &lib_a.needed("libB.so").build());
    dir.write(
        "deps/libB.so",
        &ElfSpec::lib("libB.so")
            .import("XRecordEnableContext")
            .build(),
    );
    dir
}

#[test]
fn runpath_is_not_inherited_by_transitive_dependencies() {
    let dir = inheritance_bundle(
        ElfSpec::exe().runpath("$ORIGIN/../deps"),
        ElfSpec::lib("libA.so"),
    );
    let report = run(&dir);
    assert_eq!(
        needed_of(&report, "bin/main", "libA.so"),
        Some("deps/libA.so")
    );
    assert_eq!(needed_of(&report, "deps/libA.so", "libB.so"), None);
    let record = findings_for(&report, "input-record");
    assert_eq!(record[0].reached_via, [chain(&["deps/libB.so"])]);
}

#[test]
fn rpath_is_inherited_by_transitive_dependencies() {
    let dir = inheritance_bundle(
        ElfSpec::exe().rpath("$ORIGIN/../deps"),
        ElfSpec::lib("libA.so"),
    );
    let report = run(&dir);
    assert_eq!(
        needed_of(&report, "deps/libA.so", "libB.so"),
        Some("deps/libB.so")
    );
    let record = findings_for(&report, "input-record");
    assert_eq!(
        record[0].reached_via,
        [chain(&["bin/main", "deps/libA.so", "deps/libB.so"])]
    );
}

#[test]
fn a_runpath_on_the_requester_disables_inherited_rpath() {
    let dir = inheritance_bundle(
        ElfSpec::exe().rpath("$ORIGIN/../deps"),
        ElfSpec::lib("libA.so").runpath("$ORIGIN/nowhere"),
    );
    let report = run(&dir);
    assert_eq!(
        needed_of(&report, "bin/main", "libA.so"),
        Some("deps/libA.so")
    );
    assert_eq!(needed_of(&report, "deps/libA.so", "libB.so"), None);
}

#[test]
fn an_ancestor_with_runpath_contributes_no_rpath() {
    let dir = inheritance_bundle(
        ElfSpec::exe()
            .rpath("$ORIGIN/../deps")
            .runpath("$ORIGIN/../deps"),
        ElfSpec::lib("libA.so"),
    );
    let report = run(&dir);
    assert_eq!(
        needed_of(&report, "bin/main", "libA.so"),
        Some("deps/libA.so")
    );
    assert_eq!(needed_of(&report, "deps/libA.so", "libB.so"), None);
}

#[test]
fn search_skips_objects_of_another_class_or_machine() {
    let mut dir = Tree::new("class");
    dir.write(
        "app",
        &ElfSpec::exe()
            .runpath("$ORIGIN/lib32:$ORIGIN/be64:$ORIGIN/lib64")
            .needed("libfoo.so")
            .build(),
    );
    dir.write(
        "lib32/libfoo.so",
        &ElfSpec::new(Bits::B32, Order::Little)
            .soname("libfoo.so")
            .build(),
    );
    dir.write(
        "be64/libfoo.so",
        &ElfSpec::new(Bits::B64, Order::Big)
            .soname("libfoo.so")
            .build(),
    );
    dir.write("lib64/libfoo.so", &ElfSpec::lib("libfoo.so").build());
    let report = run(&dir);
    assert_eq!(
        needed_of(&report, "app", "libfoo.so"),
        Some("lib64/libfoo.so")
    );
}

#[test]
fn search_paths_leaving_the_root_are_treated_as_system() {
    let mut dir = Tree::new("inside");
    dir.disk.write(
        "/outside/libevil.so",
        &ElfSpec::lib("libevil.so").import("XGrabKey").build(),
    );
    dir.write(
        "app",
        &ElfSpec::exe()
            .rpath("/outside:$ORIGIN/../..")
            .needed("libevil.so")
            .build(),
    );
    let report = run(&dir);
    assert_eq!(needed_of(&report, "app", "libevil.so"), None);
    assert!(report.findings.is_empty());
    assert_eq!(report.objects.len(), 1);
}

#[test]
fn soname_match_reuses_an_already_loaded_object() {
    let mut dir = Tree::new("soname");
    dir.write(
        "app",
        &ElfSpec::exe()
            .rpath("$ORIGIN/lib")
            .needed("libcore.so.2")
            .needed("libui.so")
            .build(),
    );
    // Found by file name libcore.so.2 whose SONAME is libcore.so.2.4; libui
    // asks for the SONAME and must get the same object even though no file
    // by that name exists.
    dir.write("lib/libcore.so.2", &ElfSpec::lib("libcore.so.2.4").build());
    dir.write(
        "lib/libui.so",
        &ElfSpec::lib("libui.so").needed("libcore.so.2.4").build(),
    );
    let report = run(&dir);
    assert_eq!(
        needed_of(&report, "lib/libui.so", "libcore.so.2.4"),
        Some("lib/libcore.so.2")
    );
}

#[test]
fn dependency_cycles_terminate_and_load_each_object_once() {
    let mut dir = Tree::new("cycle");
    dir.write(
        "bin/app",
        &ElfSpec::exe()
            .rpath("$ORIGIN/../lib")
            .needed("libA.so")
            .build(),
    );
    dir.write(
        "lib/libA.so",
        &ElfSpec::lib("libA.so")
            .needed("libB.so")
            .needed("libA.so")
            .build(),
    );
    dir.write(
        "lib/libB.so",
        &ElfSpec::lib("libB.so")
            .needed("libC.so")
            .needed("libA.so")
            .import("XFixesSelectSelectionNotify")
            .build(),
    );
    dir.write(
        "lib/libC.so",
        &ElfSpec::lib("libC.so")
            .needed("libB.so")
            .needed("libA.so")
            .build(),
    );
    // A cycle nothing links to, which is simulated from its own roots.
    dir.write(
        "plugins/libP.so",
        &ElfSpec::lib("libP.so")
            .runpath("$ORIGIN")
            .needed("libQ.so")
            .build(),
    );
    dir.write(
        "plugins/libQ.so",
        &ElfSpec::lib("libQ.so")
            .runpath("$ORIGIN")
            .needed("libP.so")
            .import("XShmGetImage")
            .build(),
    );
    dir.disk.link("/cycle/lib/loop", "..");

    let report = run(&dir);
    assert_eq!(report.objects.len(), 6, "{:#?}", report.objects);
    assert_eq!(
        needed_of(&report, "lib/libA.so", "libA.so"),
        Some("lib/libA.so")
    );
    assert_eq!(
        needed_of(&report, "lib/libC.so", "libB.so"),
        Some("lib/libB.so")
    );
    let watch = findings_for(&report, "selection-watch");
    assert_eq!(watch.len(), 1);
    assert_eq!(
        watch[0].reached_via,
        [chain(&["bin/app", "lib/libA.so", "lib/libB.so"])]
    );
    let capture = findings_for(&report, "screen-capture");
    assert_eq!(
        capture[0].reached_via,
        [chain(&["plugins/libP.so", "plugins/libQ.so"])]
    );
    assert_eq!(
        needed_of(&report, "plugins/libQ.so", "libP.so"),
        Some("plugins/libP.so")
    );
}

#[test]
fn corrupt_and_foreign_files_do_not_stop_a_scan() {
    let mut dir = Tree::new("corrupt");
    dir.write("app", &ElfSpec::exe().import("XQueryKeymap").build());
    let mut broken = ElfSpec::lib("libbroken.so").build();
    broken.truncate(100);
    dir.write("libbroken.so", &broken);
    dir.write("README.txt", b"not an ELF file");
    dir.write("empty", b"");
    let report = run(&dir);
    assert_eq!(report.objects.len(), 1);
    assert_eq!(report.errors.len(), 1);
    assert_eq!(report.errors[0].path, "libbroken.so");
    assert!(
        report.errors[0].message.contains("out of bounds"),
        "{}",
        report.errors[0].message
    );
    assert_eq!(findings_for(&report, "input-record").len(), 1);
}

#[test]
fn single_binary_scan_resolves_against_its_root() {
    let mut dir = Tree::new("single");
    let app = dir.write(
        "opt/app/bin/app",
        &ElfSpec::exe()
            .runpath("$ORIGIN/../lib")
            .needed("libcap.so")
            .build(),
    );
    dir.write(
        "opt/app/lib/libcap.so",
        &ElfSpec::lib("libcap.so")
            .import("XTestFakeKeyEvent")
            .build(),
    );

    let db = builtin();
    // Default root is the binary's directory, so the library is out of reach.
    let narrow = dir.disk.scan(&app, None, &db).unwrap();
    assert_eq!(narrow.objects.len(), 1);
    assert!(narrow.findings.is_empty());

    let wide = dir
        .disk
        .scan(&app, Some("/single/opt/app"), &db)
        .unwrap();
    assert_eq!(wide.findings.len(), 1);
    assert_eq!(wide.findings[0].object, "lib/libcap.so");
    assert_eq!(
        wide.findings[0].reached_via,
        [chain(&["bin/app", "lib/libcap.so"])]
    );

    let err = dir
        .disk
        .scan(&app, Some("/single/opt/app/lib"), &db)
        .unwrap_err();
    assert!(matches!(err, ScanError::OutsideRoot { .. }));
    let not_elf = dir.write("notes.txt", b"hello");
    assert!(matches!(
        dir.disk.scan(&not_elf, None, &db),
        Err(ScanError::NotElf(_))
    ));
    let mut truncated = ElfSpec::lib("libt.so").build();
    truncated.truncate(80);
    let truncated = dir.write("libt.so", &truncated);
    assert!(matches!(
        dir.disk.scan(&truncated, None, &db),
        Err(ScanError::Parse { .. })
    ));
}

// Evidence in one object.

fn evidence(spec: ElfSpec) -> Vec<(String, String, Confidence)> {
    let elf = ElfFile::parse(&spec.build()).unwrap();
    analyze(&elf, &builtin())
        .evidence
        .into_iter()
        .map(|e| (e.capability, e.symbol, e.confidence))
        .collect()
}

fn ev(cap: &str, sym: &str, confidence: Confidence) -> (String, String, Confidence) {
    (cap.to_string(), sym.to_string(), confidence)
}

#[test]
fn defined_symbols_with_capability_names_are_not_flagged() {
    for bits in [Bits::B32, Bits::B64] {
        let spec = ElfSpec::new(bits, Order::Little)
            .soname("libX11.so.6")
            .export("XConvertSelection")
            .export("XGrabKeyboard")
            .symbol(SymSpec {
                name: "XShmGetImage".into(),
                bind: STB_WEAK,
                kind: STT_FUNC,
                defined: true,
                version: Some(Version::Defined("XSHM_1".into())),
                hidden: false,
            });
        assert!(evidence(spec).is_empty());
    }
}

#[test]
fn undefined_imports_are_flagged_with_their_version() {
    let spec = ElfSpec::new(Bits::B64, Order::Big)
        .export("XQueryTree")
        .import("XGrabKeyboard")
        .import_versioned("pw_stream_connect", "libpipewire-0.3.so.0", "PIPEWIRE_0.3")
        .import("printf");
    let elf = ElfFile::parse(&spec.build()).unwrap();
    let analysis = analyze(&elf, &builtin());
    let found: Vec<_> = analysis
        .evidence
        .iter()
        .map(|e| {
            (
                e.capability.as_str(),
                e.symbol.as_str(),
                e.version.as_deref(),
            )
        })
        .collect();
    assert_eq!(
        found,
        [
            ("keyboard-grab", "XGrabKeyboard", None),
            ("pipewire-stream", "pw_stream_connect", Some("PIPEWIRE_0.3")),
        ]
    );
    assert!(!analysis.imports_dynamic_loader);
}

#[test]
fn dlopen_plus_symbol_string_is_indirect_and_neither_alone_is() {
    let base = || ElfSpec::lib("libupdater.so").import("fopen");
    assert!(evidence(base()).is_empty());
    assert!(evidence(base().import("dlopen")).is_empty(), "dlopen alone");
    assert!(
        evidence(base().rodata("XConvertSelection")).is_empty(),
        "string alone"
    );
    assert_eq!(
        evidence(base().import("dlopen").rodata("XConvertSelection")),
        [ev(
            "selection-read",
            "XConvertSelection",
            Confidence::Indirect
        )]
    );
    assert_eq!(
        evidence(base().import("dlsym").rodata("XRecordEnableContext")),
        [ev(
            "input-record",
            "XRecordEnableContext",
            Confidence::Indirect
        )]
    );
}

#[test]
fn indirect_pass_needs_an_exact_string_and_an_import_not_a_definition() {
    // A library that *defines* dlopen (a libc) is not a dlopen user.
    assert!(evidence(
        ElfSpec::lib("libc.so.6")
            .export("dlopen")
            .rodata("XConvertSelection")
    )
    .is_empty());
    // Substrings and longer messages do not match.
    assert!(evidence(
        ElfSpec::lib("libx.so")
            .import("dlopen")
            .rodata("cannot resolve XConvertSelection")
            .rodata("XConvertSelectionX")
    )
    .is_empty());
}

#[test]
fn a_direct_import_is_not_repeated_as_indirect() {
    let found = evidence(
        ElfSpec::lib("libqt.so")
            .import("dlopen")
            .import("xcb_convert_selection")
            .rodata("xcb_convert_selection")
            .rodata("xcb_get_image"),
    );
    assert_eq!(
        found,
        [
            ev("screen-capture", "xcb_get_image", Confidence::Indirect),
            ev(
                "selection-read",
                "xcb_convert_selection",
                Confidence::Direct
            ),
        ]
    );
}

#[test]
fn portal_strings_are_indirect_without_dlopen_and_library_names_are_listed() {
    let found = evidence(ElfSpec::lib("libshare.so").rodata("org.freedesktop.portal.ScreenCast"));
    assert_eq!(
        found,
        [ev(
            "portal-screencast",
            "org.freedesktop.portal.ScreenCast",
            Confidence::Indirect
        )]
    );

    let spec = ElfSpec::lib("libloader.so")
        .import("dlopen")
        .rodata("libXtst.so.6")
        .rodata("libX11.so");
    let analysis = analyze(&ElfFile::parse(&spec.build()).unwrap(), &builtin());
    assert!(analysis.imports_dynamic_loader);
    assert!(
        analysis.evidence.is_empty(),
        "a library name is not a capability"
    );
    assert_eq!(analysis.dlopen_candidates, ["libX11.so", "libXtst.so.6"]);

    let without_dlopen = ElfSpec::lib("libloader.so").rodata("libXtst.so.6");
    let analysis = analyze(
        &ElfFile::parse(&without_dlopen.build()).unwrap(),
        &builtin(),
    );
    assert!(analysis.dlopen_candidates.is_empty());
}

#[test]
fn a_custom_database_changes_what_is_reported() {
    let db = CapDb::parse(
        "[telemetry]\ntitle = Sends telemetry\nrationale = test entry\nsymbols = curl_easy_perform\n",
    )
    .unwrap();
    let spec = ElfSpec::lib("libt.so")
        .import("curl_easy_perform")
        .import("XConvertSelection");
    let elf = ElfFile::parse(&spec.build()).unwrap();
    let found: Vec<_> = analyze(&elf, &db)
        .evidence
        .into_iter()
        .map(|e| e.symbol)
        .collect();
    assert_eq!(found, ["curl_easy_perform"]);
}

// Two scans compared.

struct Release<'a> {
    main_imports: &'a [&'a str],
    lib_imports: &'a [&'a str],
    lib_path: &'a str,
    lib_rodata: &'a [&'a str],
}

fn build(name: &str, v: &Release) -> Report {
    let mut dir = Tree::new(name);
    let mut main = ElfSpec::exe()
        .runpath("$ORIGIN/lib:$ORIGIN/lib/plugins")
        .needed("libcore.so");
    for s in v.main_imports {
        main = main.import(s);
    }
    dir.write("app", &main.build());
    let mut lib = ElfSpec::lib("libcore.so");
    for s in v.lib_imports {
        lib = lib.import(s);
    }
    for s in v.lib_rodata {
        lib = lib.rodata(s);
    }
    dir.write(v.lib_path, &lib.build());
    run(&dir)
}

fn ids(changes: &[CapabilityChange]) -> Vec<&str> {
    changes.iter().map(|c| c.capability.as_str()).collect()
}

#[test]
fn reports_exactly_the_added_and_removed_capabilities() {
    let old = build("old", &Release {
        main_imports: &["XConvertSelection", "XQueryTree"],
        lib_imports: &["XRecordEnableContext", "XFixesSelectSelectionNotify"],
        lib_path: "lib/libcore.so",
        lib_rodata: &[],
    });
    let new = build("new", &Release {
        main_imports: &["XConvertSelection", "XQueryTree"],
        lib_imports: &[
            "XFixesSelectSelectionNotify",
            "xcb_shm_get_image",
            "XTestFakeKeyEvent",
        ],
        lib_path: "lib/libcore.so",
        lib_rodata: &[],
    });

    let d = diff(&old, &new);
    assert_eq!(ids(&d.added), ["input-injection", "screen-capture"]);
    assert_eq!(ids(&d.removed), ["input-record"]);
    assert!(d.changed.is_empty(), "{:#?}", d.changed);
    assert_eq!(
        d.added[1].evidence,
        [EvidenceKey {
            object: "lib/libcore.so".into(),
            symbol: "xcb_shm_get_image".into(),
            confidence: Confidence::Direct,
        }]
    );

    let back = diff(&new, &old);
    assert_eq!(ids(&back.added), ["input-record"]);
    assert_eq!(ids(&back.removed), ["input-injection", "screen-capture"]);
}

#[test]
fn identical_scans_have_no_differences_even_in_different_directories() {
    let v = Release {
        main_imports: &["XGrabKeyboard"],
        lib_imports: &["xcb_get_image"],
        lib_path: "lib/libcore.so",
        lib_rodata: &[],
    };
    let one = build("one", &v);
    let two = build("two", &v);
    assert_ne!(one.root, two.root);
    assert!(diff(&one, &two).is_empty());
}

#[test]
fn moved_or_upgraded_evidence_is_a_change_not_an_addition() {
    let old = build("old", &Release {
        main_imports: &[],
        lib_imports: &["dlopen"],
        lib_path: "lib/libcore.so",
        lib_rodata: &["XShmGetImage"],
    });
    let new = build("new", &Release {
        main_imports: &[],
        lib_imports: &["XShmGetImage"],
        lib_path: "lib/plugins/libcore.so",
        lib_rodata: &[],
    });
    assert_eq!(old.findings[0].confidence, Confidence::Indirect);
    let d = diff(&old, &new);
    assert!(d.added.is_empty() && d.removed.is_empty());
    assert_eq!(d.changed.len(), 1);
    let change = &d.changed[0];
    assert_eq!(change.capability, "screen-capture");
    assert_eq!(
        change.added,
        [EvidenceKey {
            object: "lib/plugins/libcore.so".into(),
            symbol: "XShmGetImage".into(),
            confidence: Confidence::Direct,
        }]
    );
    assert_eq!(
        change.removed,
        [EvidenceKey {
            object: "lib/libcore.so".into(),
            symbol: "XShmGetImage".into(),
            confidence: Confidence::Indirect,
        }]
    );
}

// Malformed input.

fn seeds() -> Vec<Vec<u8>> {
    let rich = |bits, order| {
        let mut spec = ElfSpec::new(bits, order)
            .soname("libseed.so.1")
            .needed("libxcb.so.1")
            .needed("libdl.so.2")
            .rpath("$ORIGIN/../lib")
            .runpath("$ORIGIN")
            .import_versioned("xcb_convert_selection", "libxcb.so.1", "XCB_1.0")
            .import("dlopen")
            .rodata("XRecordEnableContext")
            .rodata("libXtst.so.6")
            .symbol(SymSpec {
                name: "seed_api".into(),
                bind: STB_GLOBAL,
                kind: STT_FUNC,
                defined: true,
                version: Some(Version::Defined("SEED_1".into())),
                hidden: false,
            });
        spec.interp = Some("/lib/ld.so".into());
        spec.build()
    };
    vec![
        rich(Bits::B32, Order::Little),
        rich(Bits::B64, Order::Little),
        rich(Bits::B64, Order::Big),
        ElfSpec::new(Bits::B64, Order::Little).build(),
    ]
}

/// Header fields hold the offsets and counts every later read depends on, so
/// mutations are biased towards the ELF header and the section table.
fn mutate(rng: &mut Rng, input: &[u8]) -> Vec<u8> {
    let mut data = input.to_vec();
    let len = data.len();
    let shoff_region = len.saturating_sub(64 * 12);
    match rng.below(7) {
        0 => {
            for _ in 0..1 + rng.below(8) {
                let i = rng.below(len);
                data[i] ^= 1 << rng.below(8);
            }
        }
        1 => {
            let i = rng.below(64.min(len));
            data[i] = rng.next_u64() as u8;
        }
        2 => {
            let i = shoff_region + rng.below(len - shoff_region);
            let value = rng.next_u64().to_le_bytes();
            let n = (1 + rng.below(8)).min(len - i);
            data[i..i + n].copy_from_slice(&value[..n]);
        }
        3 => data.truncate(rng.below(len)),
        4 => {
            let start = rng.below(len);
            let end = (start + 1 + rng.below(64)).min(len);
            let fill = if rng.chance(2) { 0xff } else { 0x00 };
            data[start..end].iter_mut().for_each(|b| *b = fill);
        }
        5 => {
            // Plausible-looking but hostile values: counts and offsets near limits.
            let i = rng.below(len.saturating_sub(8));
            let hostile = [
                0u64,
                1,
                0x7fff_ffff,
                0xffff_ffff,
                u64::MAX,
                len as u64,
                (len - 1) as u64,
            ];
            let v = hostile[rng.below(hostile.len())].to_le_bytes();
            data[i..i + 8].copy_from_slice(&v);
        }
        _ => {
            for _ in 0..1 + rng.below(32) {
                let i = rng.below(len);
                data[i] = rng.next_u64() as u8;
            }
            if rng.chance(3) {
                data.truncate(rng.below(len));
            }
        }
    }
    data
}

#[test]
fn ten_thousand_seeded_mutations_never_panic() {
    let db = builtin();
    let seeds = seeds();
    let mut rng = Rng::new(0x0e1f_ca95);
    let (mut ok, mut errors) = (0usize, 0usize);
    let mut error_kinds = HashSet::new();
    for iteration in 0..10_000 {
        let seed = &seeds[iteration % seeds.len()];
        let data = mutate(&mut rng, seed);
        match ElfFile::parse(&data) {
            Ok(elf) => {
                // Parsed output must also be safe to analyse.
                let _ = analyze(&elf, &db);
                let _ = elf.is_executable();
                ok += 1;
            }
            Err(e) => {
                errors += 1;
                let _ = e.message();
                error_kinds.insert(std::mem::discriminant(&e));
            }
        }
    }
    // Both outcomes must be common, or the mutations are not reaching the parser.
    assert!(ok > 1_000, "only {ok} mutated files parsed");
    assert!(errors > 1_000, "only {errors} mutated files were rejected");
    assert!(
        error_kinds.len() >= 4,
        "error variety too low: {error_kinds:?}"
    );
}

#[test]
fn every_truncation_of_every_seed_is_handled() {
    for seed in seeds() {
        let full = ElfFile::parse(&seed).expect("seed parses");
        for cut in 0..seed.len() {
            if let Ok(elf) = ElfFile::parse(&seed[..cut]) {
                assert_ne!(elf, full, "a truncated file cannot parse identically");
            }
        }
        // The section table sits at the end, so dropping its last byte must fail.
        assert!(matches!(
            ElfFile::parse(&seed[..seed.len() - 1]),
            Err(ElfError::Truncated { .. })
        ));
    }
}

#[test]
fn appended_bytes_change_nothing() {
    for seed in seeds() {
        let parsed = ElfFile::parse(&seed).unwrap();
        for tail in [&b"\0"[..], b"XRecordEnableContext\0", b"\x7fELF", &seed] {
            let longer = [&seed[..], tail].concat();
            assert_eq!(ElfFile::parse(&longer).unwrap(), parsed);
        }
    }
}

fn put_u64(data: &mut [u8], at: usize, v: u64) {
    data[at..at + 8].copy_from_slice(&v.to_le_bytes());
}

fn put_u16(data: &mut [u8], at: usize, v: u16) {
    data[at..at + 2].copy_from_slice(&v.to_le_bytes());
}

#[test]
fn hostile_header_fields_give_specific_errors() {
    let seed = ElfSpec::lib("libh.so").import("XGrabKey").build();

    let mut far_table = seed.clone();
    put_u64(&mut far_table, 40, u64::MAX - 4);
    assert!(matches!(
        ElfFile::parse(&far_table),
        Err(ElfError::Truncated { .. })
    ));

    let mut huge_count = seed.clone();
    put_u16(&mut huge_count, 60, 0xfff0);
    assert!(matches!(
        ElfFile::parse(&huge_count),
        Err(ElfError::Truncated {
            what: "section header table",
            ..
        })
    ));

    let mut tiny_entries = seed.clone();
    put_u16(&mut tiny_entries, 58, 10);
    assert!(matches!(
        ElfFile::parse(&tiny_entries),
        Err(ElfError::BadEntrySize {
            what: "section header",
            ..
        })
    ));

    let mut bad_shstrndx = seed.clone();
    put_u16(&mut bad_shstrndx, 62, 200);
    assert!(matches!(
        ElfFile::parse(&bad_shstrndx),
        Err(ElfError::BadSectionIndex {
            what: "e_shstrndx",
            ..
        })
    ));

    let mut bad_phdrs = seed.clone();
    put_u64(&mut bad_phdrs, 32, seed.len() as u64 - 10);
    assert!(matches!(
        ElfFile::parse(&bad_phdrs),
        Err(ElfError::Truncated {
            what: "program header table",
            ..
        })
    ));
}

#[test]
fn verneed_walk_with_huge_count_and_tiny_steps_is_bounded() {
    let seed = ElfSpec::lib("libv.so")
        .import_versioned("a", "libc.so.6", "V1")
        .import_versioned("b", "libm.so.6", "V2")
        .build();
    let elf = ElfFile::parse(&seed).unwrap();
    let index = elf
        .sections
        .iter()
        .position(|s| s.name == ".gnu.version_r")
        .unwrap();
    let first = elf.sections[index].offset as usize;
    let shoff = u64::from_le_bytes(seed[40..48].try_into().unwrap()) as usize;
    let sh_info = shoff + index * 64 + 44;

    let mut crafted = seed.clone();
    // sh_info claims 4 billion records, vn_cnt claims 65535 aux entries, and
    // vn_next advances one byte at a time through the section.
    crafted[sh_info..sh_info + 4].copy_from_slice(&u32::MAX.to_le_bytes());
    crafted[first + 2..first + 4].copy_from_slice(&u16::MAX.to_le_bytes());
    crafted[first + 12..first + 16].copy_from_slice(&1u32.to_le_bytes());
    let started = std::time::Instant::now();
    let _ = ElfFile::parse(&crafted);
    assert!(started.elapsed().as_secs() < 5, "walk was not bounded");
}

// The command line.

fn app(disk: &mut Disk, dir: &str, lib_imports: &[&str]) {
    disk.write(
        &format!("{dir}/bin/app"),
        &ElfSpec::exe()
            .runpath("$ORIGIN/../lib")
            .needed("libqpa.so")
            .needed("libc.so.6")
            .build(),
    );
    let mut lib = ElfSpec::lib("libqpa.so");
    for s in lib_imports {
        lib = lib.import(s);
    }
    disk.write(&format!("{dir}/lib/libqpa.so"), &lib.build());
}

#[test]
fn scan_prints_a_table_with_the_chain() {
    let mut disk = Disk::new();
    app(&mut disk, "/cli-scan", &["xcb_convert_selection"]);
    let out = disk.elfcaps(&["scan", "/cli-scan"]);
    assert_eq!(out.status, 0, "{out:?}");
    let text = out.stdout;
    assert!(
        text.contains("2 ELF objects (1 executable), 1 findings in 1 capabilities"),
        "{text}"
    );
    let row = text
        .lines()
        .find(|l| l.starts_with("selection-read"))
        .unwrap_or_else(|| panic!("{text}"));
    let cells: Vec<&str> = row
        .split("  ")
        .filter(|c| !c.is_empty())
        .map(str::trim)
        .collect();
    assert_eq!(
        cells,
        [
            "selection-read",
            "lib/libqpa.so",
            "xcb_convert_selection",
            "direct",
            "bin/app -> lib/libqpa.so"
        ]
    );
    assert!(text.contains("bin/app: libc.so.6"), "{text}");
}

#[test]
fn scan_json_has_findings_and_resolution() {
    let mut disk = Disk::new();
    app(&mut disk, "/cli-json", &["XGrabKeyboard"]);
    let out = disk.elfcaps(&["scan", "--json", "/cli-json"]);
    assert_eq!(out.status, 0);
    let json = out.stdout;
    assert!(json.starts_with("{\"root\":"));
    assert!(json.contains(
        "{\"capability\":\"keyboard-grab\",\"title\":\"Grabs the keyboard or individual key combinations globally\",\"object\":\"lib/libqpa.so\",\"symbol\":\"XGrabKeyboard\",\"version\":null,\"confidence\":\"direct\",\"reached_via\":[[\"bin/app\",\"lib/libqpa.so\"]]}"
    ), "{json}");
    assert!(json.contains("{\"name\":\"libqpa.so\",\"resolved\":\"lib/libqpa.so\"}"));
    assert!(json.contains("{\"name\":\"libc.so.6\",\"resolved\":null}"));
    assert_eq!(json.matches('{').count(), json.matches('}').count());
}

#[test]
fn diff_exit_code_reflects_changes() {
    let mut disk = Disk::new();
    let (o, n, s) = ("/cli-old", "/cli-new", "/cli-same");
    app(&mut disk, o, &["XConvertSelection", "XRecordEnableContext"]);
    app(&mut disk, n, &["XConvertSelection", "XShmGetImage"]);
    app(&mut disk, s, &["XConvertSelection", "XRecordEnableContext"]);

    let changed = disk.elfcaps(&["diff", o, n]);
    assert_eq!(changed.status, 1);
    let text = changed.stdout;
    assert!(text.contains("+ screen-capture"), "{text}");
    assert!(text.contains("- input-record"), "{text}");
    assert!(!text.contains("selection-read"), "{text}");

    let json = disk.elfcaps(&["diff", "--json", o, n]).stdout;
    assert!(
        json.starts_with("{\"added\":[{\"capability\":\"screen-capture\""),
        "{json}"
    );
    assert!(
        json.contains("\"removed\":[{\"capability\":\"input-record\""),
        "{json}"
    );
    assert!(json.ends_with("\"changed\":[]}\n"), "{json}");

    let unchanged = disk.elfcaps(&["diff", o, s]);
    assert_eq!(unchanged.status, 0);
    assert!(unchanged.stdout.contains("No capability changes."));
}

#[test]
fn custom_database_and_caps_listing() {
    let mut disk = Disk::new();
    app(&mut disk, "/cli-db", &["curl_easy_perform"]);
    disk.write(
        "/cli-db/custom.db",
        b"[network]\ntitle = Talks HTTP\nrationale = test\nsymbols = curl_easy_perform\n",
    );
    let out = disk.elfcaps(&["scan", "/cli-db", "--db", "/cli-db/custom.db"]);
    assert!(out.stdout.contains("network"), "{}", out.stdout);

    let caps = disk.elfcaps(&["caps"]).stdout;
    assert!(caps.contains("selection-read\n  Reads clipboard"));
    assert!(caps.contains("why: On X11 any client"));

    disk.write("/cli-db/bad.db", b"[x]\ntitle = t\n");
    let out = disk.elfcaps(&["caps", "--db", "/cli-db/bad.db"]);
    assert_eq!(out.status, 2);
    assert!(out.stderr.contains("has no rationale"));
}

#[test]
fn usage_errors_exit_with_two() {
    let mut disk = Disk::new();
    disk.write("/x", b"");
    assert_eq!(disk.elfcaps(&[]).status, 2);
    assert_eq!(disk.elfcaps(&["frobnicate"]).status, 2);
    assert_eq!(disk.elfcaps(&["scan"]).status, 2);
    assert_eq!(disk.elfcaps(&["scan", "x", "--bogus"]).status, 2);
    let missing = disk.elfcaps(&["scan", "/definitely/not/here"]);
    assert_eq!(missing.status, 2);
    assert!(missing.stderr.contains("/definitely/not/here"));
    assert_eq!(disk.elfcaps(&["--help"]).status, 0);
    assert!(disk
        .elfcaps(&["--version"])
        .stdout
        .starts_with("elfcaps "));
}

// Single steps of resolution and of a scan.

#[test]
fn a_simulation_asks_for_the_paths_of_the_search_in_order() {
    let app = ElfSpec::exe()
        .rpath("$ORIGIN/one:/r/two")
        .needed("libA.so")
        .needed("sub/libB.so")
        .build();
    let lib_a = ElfSpec::lib("libA.so").needed("libA.so").build();
    let mut bundle = Bundle::new("/r");
    assert_eq!(bundle.root(), "/r");
    let entry = bundle
        .open("/r/app", Some("/r/app"), &Contents::Data(app))
        .unwrap();
    assert_eq!((entry.path.as_str(), entry.rel.as_str()), ("/r/app", "app"));
    let mut sim = Simulation::new(entry);

    assert_eq!(bundle.simulate(&mut sim).unwrap(), "/r/one/libA.so");
    assert!(!bundle.is_answered("/r/one/libA.so"));
    bundle.open("/r/one/libA.so", None, &Contents::NotAFile);
    assert!(bundle.is_answered("/r/one/libA.so"));
    assert_eq!(bundle.simulate(&mut sim).unwrap(), "/r/two/libA.so");
    bundle.open(
        "/r/two/libA.so",
        Some("/r/real/libA.so.1"),
        &Contents::Data(lib_a),
    );
    assert_eq!(bundle.simulate(&mut sim).unwrap(), "/r/sub/libB.so");
    bundle.open("/r/sub/libB.so", None, &Contents::NotAFile);
    assert!(bundle.simulate(&mut sim).is_none());

    let loaded = sim.loaded();
    assert_eq!(loaded.len(), 2);
    assert_eq!(loaded[0].loader, None);
    assert_eq!(loaded[0].origin, "/r");
    assert_eq!(loaded[1].loader, Some(0));
    assert_eq!(loaded[1].origin, "/r/two");
    assert_eq!(loaded[1].object.rel, "real/libA.so.1");
    let links: Vec<(&str, Option<usize>)> = loaded[0]
        .needed
        .iter()
        .map(|n| (n.name.as_str(), n.resolved))
        .collect();
    assert_eq!(links, [("libA.so", Some(1)), ("sub/libB.so", None)]);
    assert_eq!(loaded[1].needed[0].resolved, Some(1));
    assert!(bundle.errors().len() == 0);
}

#[test]
fn reopening_gives_the_same_object_and_outside_files_are_left_alone() {
    let lib = ElfSpec::lib("libA.so").build();
    let mut bundle = Bundle::new("/r");
    let first = bundle
        .open("/r/a", Some("/r/real"), &Contents::Data(lib.clone()))
        .unwrap();
    assert!(bundle.is_settled("/r/real"));
    assert!(!bundle.is_settled("/r/other"));
    let again = bundle
        .open("/r/b", Some("/r/real"), &Contents::NotAFile)
        .unwrap();
    assert!(Rc::ptr_eq(&first, &again));

    assert!(bundle.is_settled("/rest/real"));
    assert!(bundle
        .open("/rest/real", Some("/rest/real"), &Contents::Data(lib))
        .is_none());
    assert!(bundle.relative("/rest/real").is_none());
    assert_eq!(bundle.relative("/r/x/y").unwrap(), "x/y");
    assert_eq!(bundle.errors().len(), 0);
}

#[test]
fn files_that_cannot_be_loaded_are_skipped_and_broken_ones_noted() {
    let mut bundle = Bundle::new("/r");
    let mut open = |name: &str, contents: &Contents| {
        let path = format!("/r/{name}");
        bundle.open(&path, Some(&path), contents).is_none()
    };
    assert!(open("dir", &Contents::NotAFile));
    assert!(open("text", &Contents::Data(b"hello".to_vec())));
    assert!(open("empty", &Contents::Data(Vec::new())));
    assert!(open("locked", &Contents::Unreadable("denied".to_string())));
    assert!(open(
        "broken",
        &Contents::Data(b"\x7fELF\x07\x01\x01\0\0\0\0\0\0\0\0\0".to_vec())
    ));
    bundle.record_error("noted".to_string(), "by hand".to_string());
    let errors = bundle.errors();
    let all: Vec<(&str, &str)> = (0..errors.len())
        .map(|i| errors.entry(i))
        .map(|(path, message)| (path.as_str(), message.as_str()))
        .collect();
    assert_eq!(
        all,
        [
            ("broken", "unsupported ELF class 7"),
            ("locked", "denied"),
            ("noted", "by hand")
        ]
    );
}

#[test]
fn names_with_a_slash_are_opened_directly() {
    let mut dir = Tree::new("slash");
    dir.write(
        "bin/app",
        &ElfSpec::exe()
            .rpath("$ORIGIN/../lib")
            .needed("lib/libA.so")
            .needed("/slash/lib/libB.so")
            .needed("./libC.so")
            .build(),
    );
    dir.write("lib/libA.so", &ElfSpec::lib("libA.so").build());
    dir.write("lib/libB.so", &ElfSpec::lib("libB.so").build());
    dir.write("lib/libC.so", &ElfSpec::lib("libC.so").build());
    let report = run(&dir);
    assert_eq!(
        needed_of(&report, "bin/app", "lib/libA.so"),
        Some("lib/libA.so")
    );
    assert_eq!(
        needed_of(&report, "bin/app", "/slash/lib/libB.so"),
        Some("lib/libB.so")
    );
    assert_eq!(needed_of(&report, "bin/app", "./libC.so"), None);
}

#[test]
fn symlinks_are_followed_by_the_search_and_origin_is_where_the_link_is() {
    let mut dir = Tree::new("links");
    dir.write(
        "app",
        &ElfSpec::exe()
            .runpath("$ORIGIN/lib")
            .needed("libA.so")
            .build(),
    );
    dir.write(
        "store/libA.so.1.2",
        &ElfSpec::lib("libA.so.1")
            .runpath("$ORIGIN")
            .needed("libB.so")
            .build(),
    );
    dir.write("lib/libB.so", &ElfSpec::lib("libB.so").build());
    dir.disk.link("/links/lib/libA.so", "../store/libA.so.1.2");
    let report = run(&dir);
    let paths: Vec<&str> = report.objects.iter().map(|o| o.path.as_str()).collect();
    assert_eq!(paths, ["app", "lib/libB.so", "store/libA.so.1.2"]);
    assert_eq!(
        needed_of(&report, "app", "libA.so"),
        Some("store/libA.so.1.2")
    );
    assert_eq!(
        needed_of(&report, "store/libA.so.1.2", "libB.so"),
        Some("lib/libB.so")
    );
}

#[test]
fn every_object_is_reached_and_each_chain_is_kept_once() {
    let mut dir = Tree::new("chains");
    for name in ["one", "two"] {
        dir.write(
            name,
            &ElfSpec::exe()
                .rpath("$ORIGIN/lib")
                .needed("libA.so")
                .needed("libB.so")
                .build(),
        );
    }
    dir.write(
        "lib/libA.so",
        &ElfSpec::lib("libA.so").needed("libB.so").build(),
    );
    dir.write(
        "lib/libB.so",
        &ElfSpec::lib("libB.so").import("XGrabKey").build(),
    );
    dir.write(
        "lib/plugin.so",
        &ElfSpec::lib("plugin.so").rpath("$ORIGIN").needed("libB.so").build(),
    );
    let report = run(&dir);
    let paths: Vec<&str> = report.objects.iter().map(|o| o.path.as_str()).collect();
    assert_eq!(
        paths,
        ["lib/libA.so", "lib/libB.so", "lib/plugin.so", "one", "two"]
    );
    assert_eq!(report.findings.len(), 1);
    assert_eq!(
        report.findings[0].reached_via,
        [
            chain(&["one", "lib/libB.so"]),
            chain(&["two", "lib/libB.so"]),
            chain(&["lib/plugin.so", "lib/libB.so"])
        ]
    );
}

#[test]
fn findings_come_in_the_order_of_the_database() {
    let db = CapDb::parse(
        "[zeta]\ntitle = Z\nrationale = r\nsymbols = z1 z2\n\
         [alpha]\ntitle = A\nrationale = r\nsymbols = a1\n",
    )
    .unwrap();
    let mut dir = Tree::new("order");
    dir.write(
        "b",
        &ElfSpec::exe().import("a1").import("z2").import("z1").build(),
    );
    dir.write(
        "a",
        &ElfSpec::exe().import("dlsym").rodata("z1;").rodata("a1-x").import("z2").build(),
    );
    let report = dir.disk.scan("/order", None, &db).unwrap();
    let found: Vec<(&str, &str, &str, &str)> = report
        .findings
        .iter()
        .map(|f| {
            (
                f.capability.as_str(),
                f.title.as_str(),
                f.object.as_str(),
                f.symbol.as_str(),
            )
        })
        .collect();
    assert_eq!(
        found,
        [
            ("zeta", "Z", "a", "z2"),
            ("zeta", "Z", "b", "z1"),
            ("zeta", "Z", "b", "z2"),
            ("alpha", "A", "b", "a1"),
        ]
    );
    assert_eq!(report.root, "/order");
}

#[test]
fn what_a_walk_could_not_read_is_noted_below_the_root() {
    let mut collection = Collection::new(Bundle::new("/r"));
    collection.add_error("/r/sub/dir".to_string(), "locked".to_string());
    collection.add_error("/elsewhere".to_string(), "lost".to_string());
    let mut scan = Scan::new(collection);
    assert!(scan.advance().is_none());
    let report = scan.report(".", &builtin());
    let errors: Vec<(&str, &str)> = report
        .errors
        .iter()
        .map(|e| (e.path.as_str(), e.message.as_str()))
        .collect();
    assert_eq!(errors, [("/elsewhere", "lost"), ("sub/dir", "locked")]);
    assert!(report.objects.is_empty() && report.findings.is_empty());
}

#[test]
fn read_only_strings_are_printable_sorted_and_listed_once() {
    let spec = ElfSpec::lib("libs.so")
        .rodata("zebra")
        .rodata("abc")
        .rodata("four")
        .rodata("zebra")
        .rodata("tab\there")
        .rodata("caf\u{e9}s");
    let elf = ElfFile::parse(&spec.build()).unwrap();
    assert_eq!(elf.rodata_strings, ["four", "zebra"]);
}

#[test]
fn objects_load_breadth_first() {
    let needs = |names: &[&str]| {
        let mut spec = ElfSpec::exe().rpath("$ORIGIN");
        for name in names {
            spec = spec.needed(name);
        }
        spec.build()
    };
    let mut disk = Disk::new();
    disk.write("/r/app", &needs(&["a", "b"]));
    disk.write("/r/a", &needs(&["c", "d"]));
    disk.write("/r/b", &needs(&["e", "c"]));
    disk.write("/r/c", &needs(&["f"]));
    for name in ["d", "e", "f"] {
        disk.write(&format!("/r/{name}"), &needs(&[]));
    }
    let mut bundle = Bundle::new("/r");
    let entry = bundle
        .open("/r/app", Some("/r/app"), &disk.contents("/r/app"))
        .unwrap();
    let mut sim = Simulation::new(entry);
    while let Some(path) = bundle.simulate(&mut sim) {
        let canonical = disk.canonical(&path).unwrap();
        bundle.open(&path, Some(&canonical), &disk.contents(&canonical));
    }
    let order: Vec<(&str, Option<usize>)> = sim
        .loaded()
        .iter()
        .map(|l| (l.object.rel.as_str(), l.loader))
        .collect();
    assert_eq!(
        order,
        [
            ("app", None),
            ("a", Some(0)),
            ("b", Some(0)),
            ("c", Some(1)),
            ("d", Some(1)),
            ("e", Some(2)),
            ("f", Some(3)),
        ]
    );
}

#[test]
fn the_first_simulation_decides_how_dependencies_resolve() {
    let mut dir = Tree::new("first");
    for name in ["one", "two"] {
        dir.write(
            &format!("{name}/app"),
            &ElfSpec::exe()
                .rpath("$ORIGIN:$ORIGIN/../lib")
                .needed("libA.so")
                .build(),
        );
        dir.write(
            &format!("{name}/libB.so"),
            &ElfSpec::lib("libB.so").import("XGrabKey").build(),
        );
    }
    dir.write(
        "lib/libA.so",
        &ElfSpec::lib("libA.so").needed("libB.so").build(),
    );
    let report = run(&dir);
    assert_eq!(
        needed_of(&report, "lib/libA.so", "libB.so"),
        Some("one/libB.so")
    );
    let via: Vec<Vec<String>> = report
        .findings
        .iter()
        .map(|f| f.reached_via[0].clone())
        .collect();
    assert_eq!(
        via,
        [
            chain(&["one/app", "lib/libA.so", "one/libB.so"]),
            chain(&["two/app", "lib/libA.so", "two/libB.so"])
        ]
    );
}

/// A chat application with a vendored toolkit, an updater that loads libraries by
/// name, and a plugin that no executable links.
fn chat_app(disk: &mut Disk, dir: &str, update: bool) {
    let mut write = |path: &str, spec: ElfSpec| disk.write(&format!("{dir}/{path}"), &spec.build());
    write(
        "bin/chatapp",
        ElfSpec::exe()
            .runpath("$ORIGIN/../lib")
            .needed("libchatcore.so")
            .needed("libQt5Gui.so.5")
            .needed("libc.so.6"),
    );
    write(
        "lib/libchatcore.so",
        ElfSpec::lib("libchatcore.so")
            .runpath("$ORIGIN")
            .needed("libQt5Network.so.5")
            .needed("libupdater.so"),
    );
    write("lib/libQt5Network.so.5", ElfSpec::lib("libQt5Network.so.5"));
    write(
        "lib/libQt5Gui.so.5",
        ElfSpec::lib("libQt5Gui.so.5")
            .runpath("$ORIGIN")
            .needed("libQt5XcbQpa.so.5"),
    );
    let mut platform = ElfSpec::lib("libQt5XcbQpa.so.5")
        .needed("libxcb.so.1")
        .needed("libxcb-xfixes.so.0")
        .import_versioned("xcb_convert_selection", "libxcb.so.1", "XCB_1.0")
        .import("xcb_xfixes_select_selection_notify")
        .import("xcb_get_image")
        .import("xcb_query_tree");
    let mut updater = ElfSpec::lib("libupdater.so")
        .needed("libdl.so.2")
        .import("dlopen")
        .import("dlsym")
        .rodata("libXtst.so.6");
    if update {
        platform = platform.import("xcb_grab_keyboard");
        updater = updater
            .rodata("XRecordEnableContext")
            .rodata("org.freedesktop.portal.ScreenCast");
    }
    write("lib/libQt5XcbQpa.so.5", platform);
    write("lib/libupdater.so", updater);
    write(
        "lib/plugins/libscreenshare.so",
        ElfSpec::lib("libscreenshare.so")
            .runpath("$ORIGIN/..")
            .needed("libQt5XcbQpa.so.5")
            .needed("libXext.so.6")
            .import("XShmGetImage")
            .import("XDamageCreate"),
    );
}

#[test]
fn a_whole_application_is_reported_and_compared() {
    let mut disk = Disk::new();
    chat_app(&mut disk, "/demo/chatapp-1.0", false);
    chat_app(&mut disk, "/demo/chatapp-1.1", true);
    assert_eq!(
        disk.elfcaps(&["scan", "demo/chatapp-1.0"]).stdout,
        "\
Scanned demo/chatapp-1.0: 7 ELF objects (1 executable), 6 findings in 5 capabilities.

CAPABILITY              OBJECT                         SYMBOL                              CONFIDENCE  REACHED VIA
selection-read          lib/libQt5XcbQpa.so.5          xcb_convert_selection@XCB_1.0       direct      bin/chatapp -> lib/libQt5Gui.so.5 -> lib/libQt5XcbQpa.so.5 (+1 more)
selection-watch         lib/libQt5XcbQpa.so.5          xcb_xfixes_select_selection_notify  direct      bin/chatapp -> lib/libQt5Gui.so.5 -> lib/libQt5XcbQpa.so.5 (+1 more)
screen-capture          lib/libQt5XcbQpa.so.5          xcb_get_image                       direct      bin/chatapp -> lib/libQt5Gui.so.5 -> lib/libQt5XcbQpa.so.5 (+1 more)
screen-capture          lib/plugins/libscreenshare.so  XShmGetImage                        direct      (not linked from any executable)
screen-change-tracking  lib/plugins/libscreenshare.so  XDamageCreate                       direct      (not linked from any executable)
window-introspection    lib/libQt5XcbQpa.so.5          xcb_query_tree                      direct      bin/chatapp -> lib/libQt5Gui.so.5 -> lib/libQt5XcbQpa.so.5 (+1 more)

Capabilities found:
  selection-read         Reads clipboard or primary-selection contents
  selection-watch        Gets notified whenever any application changes the clipboard
  screen-capture         Reads pixels of the screen or of other windows
  screen-change-tracking Tracks which parts of the screen change
  window-introspection   Enumerates other clients' windows and reads their titles

Library names in objects that import dlopen/dlsym:
  lib/libupdater.so: libXtst.so.6

DT_NEEDED not found in the bundle (left to the system):
  bin/chatapp: libc.so.6
  lib/libQt5XcbQpa.so.5: libxcb.so.1, libxcb-xfixes.so.0
  lib/libupdater.so: libdl.so.2
  lib/plugins/libscreenshare.so: libXext.so.6
"
    );
    let changes = disk.elfcaps(&["diff", "demo/chatapp-1.0", "demo/chatapp-1.1"]);
    assert_eq!(changes.status, 1);
    assert_eq!(
        changes.stdout,
        "\
Capability diff demo/chatapp-1.0 -> demo/chatapp-1.1

+ input-record  Records keyboard and pointer input of the whole session
    lib/libupdater.so  XRecordEnableContext  indirect
+ keyboard-grab  Grabs the keyboard or individual key combinations globally
    lib/libQt5XcbQpa.so.5  xcb_grab_keyboard  direct
+ portal-screencast  Requests screen capture through xdg-desktop-portal
    lib/libupdater.so  org.freedesktop.portal.ScreenCast  indirect
"
    );
}

#[test]
fn counts_that_do_not_fit_the_header_are_read_from_section_zero() {
    let seed = ElfSpec::exe()
        .soname("libe.so")
        .needed("libc.so.6")
        .import_versioned("xcb_get_image", "libxcb.so.1", "XCB_1.0")
        .build();
    let plain = ElfFile::parse(&seed).unwrap();
    let field = |at: usize| u16::from_le_bytes([seed[at], seed[at + 1]]);
    let (phnum, shnum, shstrndx) = (field(56), field(60), field(62));
    let zero = u64::from_le_bytes(seed[40..48].try_into().unwrap()) as usize;

    let mut escaped = seed.clone();
    put_u16(&mut escaped, 56, 0xffff);
    put_u16(&mut escaped, 60, 0);
    put_u16(&mut escaped, 62, 0xffff);
    put_u64(&mut escaped, zero + 32, u64::from(shnum));
    put_u16(&mut escaped, zero + 40, shstrndx);
    put_u16(&mut escaped, zero + 44, phnum);
    let mut got = ElfFile::parse(&escaped).unwrap();
    assert_eq!(got.sections[0].size, u64::from(shnum));
    assert_eq!(got.sections[0].link, u32::from(shstrndx));
    assert_eq!(got.sections[0].info, u32::from(phnum));
    got.sections[0] = plain.sections[0].clone();
    assert_eq!(got, plain);
}
