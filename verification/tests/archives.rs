use disc_xplorer::catalog::Catalog;
use disc_xplorer::source::MemSource;
use disc_xplorer::vpk_archive::{complete_entry, cstring, VpkArchive};
use disc_xplorer::zarchive::{is_zarchive, ZArchive, ZStep, ROOT_NODE};

#[test]
fn reads_nul_terminated_strings() {
    let d = b"ext\0dir\0\0";
    let mut p = 0;
    assert_eq!(cstring(d, &mut p).as_deref(), Some("ext"));
    assert_eq!(cstring(d, &mut p).as_deref(), Some("dir"));
    assert_eq!(cstring(d, &mut p).as_deref(), Some(""));
    assert_eq!(cstring(d, &mut p), None, "past the end");
}

#[test]
fn names_numbered_archives_beside_the_directory() {
    let a = VpkArchive {
        dir_path: "/games/pak01_dir.vpk".to_string(),
        data_start: 0,
        catalog: Catalog::new(),
    };
    assert_eq!(a.archive_path(0).unwrap(), "/games/pak01_000.vpk");
    assert_eq!(a.archive_path(12).unwrap(), "/games/pak01_012.vpk");
    let b = VpkArchive {
        dir_path: "/games/misc.vpk".to_string(),
        data_start: 0,
        catalog: Catalog::new(),
    };
    assert_eq!(b.archive_path(1).unwrap(), "/games/misc_001.vpk");
}

// ── ZArchive ────────────────────────────────────────────────────────────────

const BLOCK_SIZE: usize = 64 * 1024;
const NODE_SIZE: usize = 16;
const FILE_FLAG: u32 = 0x8000_0000;

struct Builder {
    names: Vec<u8>,
    nodes: Vec<[u8; NODE_SIZE]>,
    blocks: Vec<Vec<u8>>,
}

impl Builder {
    fn new() -> Self {
        Builder { names: Vec::new(), nodes: Vec::new(), blocks: Vec::new() }
    }

    fn add_name(&mut self, name: &str) -> u32 {
        let off = self.names.len() as u32;
        assert!(name.len() < 0x80, "test names stay in the short form");
        self.names.push(name.len() as u8);
        self.names.extend_from_slice(name.as_bytes());
        off
    }

    fn add_file_data(&mut self, content: &[u8]) -> u64 {
        let offset = (self.blocks.len() * BLOCK_SIZE) as u64;
        let count = content.len().div_ceil(BLOCK_SIZE).max(1);
        for b in 0..count {
            let mut chunk =
                content[b * BLOCK_SIZE..((b + 1) * BLOCK_SIZE).min(content.len())].to_vec();
            chunk.resize(BLOCK_SIZE, 0);
            let stored = if self.blocks.len() % 2 == 0 {
                zstd::bulk::compress(&chunk, 3).unwrap()
            } else {
                chunk
            };
            assert!(stored.len() <= BLOCK_SIZE);
            self.blocks.push(stored);
        }
        offset
    }

    fn dir_node(&mut self, name_off: u32, start: u32, count: u32) {
        let mut n = [0u8; NODE_SIZE];
        n[0..4].copy_from_slice(&name_off.to_be_bytes());
        n[4..8].copy_from_slice(&start.to_be_bytes());
        n[8..12].copy_from_slice(&count.to_be_bytes());
        self.nodes.push(n);
    }

    fn file_node(&mut self, name_off: u32, offset: u64, size: u64) {
        let mut n = [0u8; NODE_SIZE];
        n[0..4].copy_from_slice(&(name_off | FILE_FLAG).to_be_bytes());
        n[4..8].copy_from_slice(&(offset as u32).to_be_bytes());
        n[8..12].copy_from_slice(&(size as u32).to_be_bytes());
        n[12..14].copy_from_slice(&((size >> 32) as u16).to_be_bytes());
        n[14..16].copy_from_slice(&((offset >> 32) as u16).to_be_bytes());
        self.nodes.push(n);
    }

    fn finish(self) -> Vec<u8> {
        let mut data = Vec::new();
        let mut records = Vec::new();
        for group in self.blocks.chunks(16) {
            records.extend_from_slice(&(data.len() as u64).to_be_bytes());
            let mut sizes = [0u16; 16];
            for (i, blk) in group.iter().enumerate() {
                sizes[i] = (blk.len() - 1) as u16;
                data.extend_from_slice(blk);
            }
            for s in sizes {
                records.extend_from_slice(&s.to_be_bytes());
            }
        }
        let mut out = Vec::new();
        out.extend_from_slice(&data);
        let rec_off = out.len() as u64;
        out.extend_from_slice(&records);
        let name_off = out.len() as u64;
        out.extend_from_slice(&self.names);
        let tree_off = out.len() as u64;
        for n in &self.nodes {
            out.extend_from_slice(n);
        }
        let meta_off = out.len() as u64;
        let mut footer = Vec::new();
        for (o, s) in [
            (0u64, data.len() as u64),
            (rec_off, records.len() as u64),
            (name_off, self.names.len() as u64),
            (tree_off, (self.nodes.len() * NODE_SIZE) as u64),
            (meta_off, 0),
            (meta_off, 0),
        ] {
            footer.extend_from_slice(&o.to_be_bytes());
            footer.extend_from_slice(&s.to_be_bytes());
        }
        footer.extend_from_slice(&[0u8; 32]);
        let total = out.len() as u64 + 144;
        footer.extend_from_slice(&total.to_be_bytes());
        footer.extend_from_slice(&[0x61, 0xBF, 0x3A, 0x01]);
        footer.extend_from_slice(&[0x16, 0x9F, 0x52, 0xD6]);
        assert_eq!(footer.len() as u64, 144);
        out.extend_from_slice(&footer);
        out
    }
}

fn build() -> (Vec<u8>, Vec<u8>, Vec<u8>) {
    let mut b = Builder::new();
    let hello = b"Hello from inside a Wii U Archive.".to_vec();
    let big: Vec<u8> = (0..BLOCK_SIZE * 2 + 1234).map(|i| (i * 31 % 251) as u8).collect();
    let n_hello = b.add_name("hello.txt");
    let n_content = b.add_name("content");
    let n_big = b.add_name("big.bin");
    let off_hello = b.add_file_data(&hello);
    let off_big = b.add_file_data(&big);
    b.dir_node(ROOT_NODE, 1, 2);
    b.file_node(n_hello, off_hello, hello.len() as u64);
    b.dir_node(n_content, 3, 1);
    b.file_node(n_big, off_big, big.len() as u64);
    (b.finish(), hello, big)
}

fn open(file: Vec<u8>) -> Result<ZArchive<MemSource>, String> {
    let len = file.len() as u64;
    ZArchive::open(MemSource::new(file), len)
}

#[test]
fn lists_the_tree() {
    let (file, _, big) = build();
    assert!(is_zarchive(&mut MemSource::new(file.clone()), file.len() as u64));
    let z = open(file).ok().unwrap();
    let root = z.list_directory("/").unwrap();
    let names: Vec<_> = root.iter().map(|e| (e.name.as_str(), e.is_dir)).collect();
    assert_eq!(names, vec![("hello.txt", false), ("content", true)]);
    let sub = z.list_directory("/content").unwrap();
    assert_eq!(sub.len(), 1);
    assert_eq!(sub[0].name, "big.bin");
    assert_eq!(sub[0].size_bytes as usize, big.len());
    assert!(z.list_directory("/nope").is_err());
    assert!(z.list_directory("/hello.txt").is_err(), "a file is not a directory");
}

#[test]
fn extracts_files_byte_for_byte() {
    let (file, hello, big) = build();
    let mut z = open(file).ok().unwrap();
    assert_eq!(z.extract_file("/hello.txt").unwrap(), hello);
    assert_eq!(z.extract_file("/content/big.bin").unwrap(), big);
}

#[test]
fn extracts_a_whole_tree() {
    let (file, hello, big) = build();
    let mut z = open(file).ok().unwrap();
    let steps = z.extract_directory("/", "out").unwrap();
    let mut written: Vec<(String, Vec<u8>)> = Vec::new();
    let mut dirs: Vec<String> = Vec::new();
    for s in steps {
        match s {
            ZStep::Dir { dest } => dirs.push(dest),
            ZStep::File { dest, offset, size } => {
                written.push((dest, z.read_range(offset, size).unwrap()))
            }
        }
    }
    assert_eq!(dirs, vec!["out/content".to_string()]);
    let find = |name: &str| written.iter().find(|(d, _)| d == name).unwrap().1.clone();
    assert_eq!(find("out/hello.txt"), hello);
    assert_eq!(find("out/content/big.bin"), big);
}

#[test]
fn rejects_files_that_are_not_zarchives() {
    let blank = vec![0u8; 200];
    assert!(!is_zarchive(&mut MemSource::new(blank.clone()), 200));
    assert!(open(blank).is_err());
    let (good, _, _) = build();
    let mut bytes = good;
    let n = bytes.len();
    bytes[n - 16..n - 8].copy_from_slice(&999u64.to_be_bytes());
    let err = open(bytes).err().expect("should reject");
    assert!(err.contains("does not match"), "{err}");
}

fn vpk_entry(tree: &mut Vec<u8>, name: &str, preload: &[u8], archive: u16, at: u32, len: u32) {
    tree.extend(name.as_bytes());
    tree.push(0);
    tree.extend([0; 4]);
    tree.extend((preload.len() as u16).to_le_bytes());
    tree.extend(archive.to_le_bytes());
    tree.extend(at.to_le_bytes());
    tree.extend(len.to_le_bytes());
    tree.extend([0xFF, 0xFF]);
    tree.extend(preload);
}

#[test]
fn a_vpk_file_is_put_together_from_its_parts() {
    let mut tree = b"txt\0dir\0".to_vec();
    vpk_entry(&mut tree, "here", b"he", 0x7FFF, 1, 2);
    vpk_entry(&mut tree, "there", b"", 3, 4, 5);
    tree.extend([0; 3]);
    let mut v = 0x55AA_1234u32.to_le_bytes().to_vec();
    v.extend(1u32.to_le_bytes());
    v.extend((tree.len() as u32).to_le_bytes());
    v.extend(&tree);
    v.extend(b"xre");
    let len = v.len() as u64;
    let mut file = MemSource::new(v);
    let a = VpkArchive::open(&mut file, len, "/g/pak01_dir.vpk").ok().unwrap();
    let names: Vec<String> = a.list_directory("/dir").ok().unwrap().into_iter().map(|e| e.name).collect();
    assert_eq!(names, ["here.txt", "there.txt"]);
    let here = a.extract_file("/dir/here.txt").ok().unwrap();
    assert_eq!(here.rest.as_ref().unwrap().path, "/g/pak01_dir.vpk");
    assert_eq!(complete_entry(here, &mut file).unwrap(), b"here");
    let there = a.extract_file("/dir/there.txt").ok().unwrap();
    let rest = there.rest.as_ref().unwrap();
    assert_eq!((rest.path.as_str(), rest.at, rest.length), ("/g/pak01_003.vpk", 4, 5));
    assert_eq!(complete_entry(there, &mut MemSource::new(b"....tail!".to_vec())).unwrap(), b"tail!");
    assert!(a.extract_file("/dir/nowhere").is_err());
}
