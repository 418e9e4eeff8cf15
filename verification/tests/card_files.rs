use ai_os::cat::{cat_file, CatOp};
use ai_os::fat32::{
    fat32_init, fat32_list_files_debug, fat32_list_root, fat32_read_file, iter_root_dir, Fat32,
    FileInfo, FsOp,
};
use ai_os::loader::{load_file_to_addr, LoadOp};
use ai_os::session::Next;

/// A card: its sectors, and the one that cannot be read.
struct Disk {
    sectors: Vec<[u8; 512]>,
    bad: Option<u32>,
}

impl Disk {
    fn read(&self, lba: u32) -> Option<&[u8; 512]> {
        if self.bad == Some(lba) || lba as usize >= self.sectors.len() {
            None
        } else {
            Some(&self.sectors[lba as usize])
        }
    }
}

fn put16(s: &mut [u8; 512], at: usize, v: u16) {
    s[at..at + 2].copy_from_slice(&v.to_le_bytes());
}

fn put32(s: &mut [u8; 512], at: usize, v: u32) {
    s[at..at + 4].copy_from_slice(&v.to_le_bytes());
}

fn entry(s: &mut [u8; 512], i: usize, name: &[u8; 11], attr: u8, cluster: u32, size: u32) {
    let o = 32 * i;
    s[o..o + 11].copy_from_slice(name);
    s[o + 11] = attr;
    put16(s, o + 20, (cluster >> 16) as u16);
    put16(s, o + 26, cluster as u16);
    put32(s, o + 28, size);
}

fn content(i: usize) -> u8 {
    (i * 7 % 251) as u8
}

/// Two sectors to a cluster. The root directory is cluster 2, followed by cluster 4;
/// README.TXT is in clusters 3 and 5, EVEN.BIN in cluster 6, SHORT.BIN claims more than
/// its cluster 7 holds.
fn disk() -> Disk {
    let mut sectors = vec![[0u8; 512]; 40];
    put16(&mut sectors[0], 510, 0xAA55);
    sectors[0][0x1BE + 4] = 0x0C;
    put32(&mut sectors[0], 0x1BE + 8, 8);
    let vbr = &mut sectors[8];
    put16(vbr, 510, 0xAA55);
    put16(vbr, 11, 512);
    vbr[13] = 2;
    put16(vbr, 14, 4);
    vbr[16] = 2;
    put32(vbr, 36, 1);
    put32(vbr, 44, 2);
    let fat = &mut sectors[12];
    put32(fat, 4 * 2, 4);
    put32(fat, 4 * 3, 0xF000_0005);
    put32(fat, 4 * 4, 0x0FFF_FFFF);
    put32(fat, 4 * 5, 0x0FFF_FFF8);
    put32(fat, 4 * 6, 0x0FFF_FFFF);
    put32(fat, 4 * 7, 0x0FFF_FFFF);
    // Cluster 2 is sectors 14 and 15, both full; cluster 4 is sectors 18 and 19.
    for i in 0..16 {
        entry(&mut sectors[14], i, b"\xE5ELETED TXT", 0x20, 0, 0);
        entry(&mut sectors[15], i, b"\xE5ELETED TXT", 0x20, 0, 0);
    }
    entry(&mut sectors[14], 0, b"AIOS       ", 0x08, 0, 0);
    entry(&mut sectors[14], 1, b"Ar\0e\0a\0d\0m\0", 0x0F, 0, 0);
    entry(&mut sectors[14], 2, b"README  TXT", 0x20, 3, 1500);
    entry(&mut sectors[14], 5, b"OVERLAYS   ", 0x10, 9, 0);
    entry(&mut sectors[15], 15, b"EVEN    BIN", 0x20, 6, 1024);
    entry(&mut sectors[18], 0, b"SHORT   BIN", 0x20, 7, 1025);
    entry(&mut sectors[18], 1, b"EMPTY      ", 0x20, 0x0001_0008, 0);
    // Behind the end mark.
    entry(&mut sectors[18], 3, b"HIDDEN  TXT", 0x20, 3, 5);
    for i in 0..1024 {
        sectors[16 + i / 512][i % 512] = content(i);
        sectors[22 + i / 512][i % 512] = content(i + 100);
        sectors[24 + i / 512][i % 512] = content(i + 200);
    }
    for i in 1024..1536 {
        sectors[20][i - 1024] = content(i);
    }
    Disk { sectors, bad: None }
}

fn mount(d: &Disk, fs: Fat32) -> (bool, Fat32, String) {
    let mut m = fat32_init(fs);
    let mut text: Vec<u8> = Vec::new();
    loop {
        match m.next() {
            Next::Op(FsOp::Sector(lba)) => m.answer(d.read(lba)),
            Next::Op(FsOp::Print(t)) => {
                text.extend_from_slice(&t);
                m.answer(None);
            }
            Next::Op(FsOp::Chunk(_)) => panic!("no chunk is expected"),
            Next::Done((ok, fs)) => return (ok, fs, String::from_utf8(text).unwrap()),
        }
    }
}

fn list(d: &Disk, fs: Fat32) -> Vec<FileInfo> {
    list_up_to(d, fs, 100)
}

fn list_up_to(d: &Disk, fs: Fat32, max: usize) -> Vec<FileInfo> {
    let mut m = fat32_list_root(fs, max);
    loop {
        match m.next() {
            Next::Op(FsOp::Sector(lba)) => m.answer(d.read(lba)),
            Next::Op(_) => panic!("only sectors are expected"),
            Next::Done(files) => return files,
        }
    }
}

fn read(d: &Disk, fs: Fat32, name: &[u8; 11]) -> (bool, Vec<u8>) {
    let mut m = fat32_read_file(fs, name);
    let mut bytes: Vec<u8> = Vec::new();
    loop {
        match m.next() {
            Next::Op(FsOp::Sector(lba)) => m.answer(d.read(lba)),
            Next::Op(FsOp::Chunk(c)) => {
                bytes.extend_from_slice(&c);
                m.answer(None);
            }
            Next::Op(FsOp::Print(_)) => panic!("no text is expected"),
            Next::Done(ok) => return (ok, bytes),
        }
    }
}

fn volume() -> Fat32 {
    Fat32 {
        partition_lba: 8,
        fat_lba: 12,
        data_lba: 14,
        root_cluster: 2,
        sec_per_clus: 2,
        ready: true,
    }
}

#[test]
fn a_fresh_state_knows_no_volume() {
    let fs = Fat32::new();
    assert!(!fs.ready);
    assert_eq!(fs.partition_lba, 0);
    let d = disk();
    assert_eq!(list(&d, fs), vec![]);
    assert_eq!(read(&d, fs, b"README  TXT"), (false, vec![]));
}

#[test]
fn the_volume_is_found() {
    let (ok, fs, text) = mount(&disk(), Fat32::new());
    assert!(ok);
    assert_eq!(fs, volume());
    assert_eq!(
        text,
        "[fat32] MBR sig: 0xAA55\n[fat32] Part type: 0x0C  LBA: 8\n[fat32] VBR sig: 0xAA55\n\
         [fat32] bps=512 spc=2 res=4 nfat=2 fatsz=1 rootclus=2\n[fat32] fat_lba=12 data_lba=14\n"
    );
}

#[test]
fn an_unreadable_mbr_is_reported() {
    let mut d = disk();
    d.bad = Some(0);
    let (ok, fs, text) = mount(&d, Fat32::new());
    assert!(!ok);
    assert_eq!(fs, Fat32::new());
    assert_eq!(text, "[fat32] FAIL: sd_read_block(0) failed\n");
}

#[test]
fn a_bad_mbr_signature_is_reported() {
    let mut d = disk();
    put16(&mut d.sectors[0], 510, 0x1234);
    let (ok, fs, text) = mount(&d, Fat32::new());
    assert!(!ok);
    assert_eq!(fs, Fat32::new());
    assert_eq!(
        text,
        "[fat32] MBR sig: 0x1234\n[fat32] FAIL: bad MBR signature (expected 0xAA55)\n"
    );
}

#[test]
fn partitions_that_are_not_fat_are_refused() {
    let mut d = disk();
    d.sectors[0][0x1BE + 4] = 0;
    let (ok, _, text) = mount(&d, Fat32::new());
    assert!(!ok);
    assert!(text.ends_with(
        "[fat32] Part type: 0x00  LBA: 8\n[fat32] FAIL: partition type 0x00 (empty)\n"
    ));
    for t in [0x82u8, 0x83, 0x8E] {
        d.sectors[0][0x1BE + 4] = t;
        let (ok, fs, text) = mount(&d, Fat32::new());
        assert!(!ok);
        assert_eq!(fs, Fat32::new());
        assert!(text.ends_with(&format!(
            "[fat32] FAIL: partition type 0x{:02X} is Linux, not FAT\n",
            t
        )));
    }
    d.sectors[0][0x1BE + 4] = 0x0A;
    assert!(mount(&d, Fat32::new()).0);
}

#[test]
fn an_unreadable_boot_record_is_reported_and_the_partition_remembered() {
    let mut d = disk();
    d.bad = Some(8);
    let (ok, fs, text) = mount(&d, Fat32::new());
    assert!(!ok);
    assert_eq!(fs.partition_lba, 8);
    assert!(!fs.ready);
    assert!(text.ends_with("[fat32] FAIL: sd_read_block(8) failed\n"));
}

#[test]
fn unusable_boot_records_are_refused() {
    let mut d = disk();
    put16(&mut d.sectors[8], 510, 0);
    let (ok, _, text) = mount(&d, Fat32::new());
    assert!(!ok);
    assert!(text.ends_with("[fat32] VBR sig: 0x0000\n[fat32] FAIL: bad VBR signature\n"));
    let mut d = disk();
    put16(&mut d.sectors[8], 11, 4096);
    let (ok, _, text) = mount(&d, Fat32::new());
    assert!(!ok);
    assert!(text.ends_with("[fat32] FAIL: bytes_per_sector=4096 (need 512)\n"));
    let mut d = disk();
    d.sectors[8][13] = 0;
    let (ok, _, text) = mount(&d, Fat32::new());
    assert!(!ok);
    assert!(text.ends_with("[fat32] FAIL: sectors_per_cluster=0\n"));
}

#[test]
fn sector_numbers_wrap_at_32_bits() {
    let mut d = disk();
    d.sectors.resize(41, [0; 512]);
    let (mbr, vbr) = (d.sectors[0], d.sectors[8]);
    let mut m = fat32_init(Fat32::new());
    let mut mbr = mbr;
    put32(&mut mbr, 0x1BE + 8, 0xFFFF_FFFE);
    m.answer(Some(&mbr));
    m.answer(None);
    assert_eq!(m.next(), Next::Op(FsOp::Sector(0xFFFF_FFFE)));
    m.answer(Some(&vbr));
    m.answer(None);
    match m.next() {
        Next::Done((true, fs)) => {
            assert_eq!(fs.fat_lba, 2);
            assert_eq!(fs.data_lba, 4);
        }
        _ => panic!("the volume should be found"),
    }
}

#[test]
fn the_root_directory_is_listed_in_order() {
    let files = list(&disk(), volume());
    let names: Vec<&[u8]> = files.iter().map(|f| &f.name[..]).collect();
    assert_eq!(
        names,
        vec![
            &b"README.TXT\0\0"[..],
            &b"OVERLAYS\0\0\0\0"[..],
            &b"EVEN.BIN\0\0\0\0"[..],
            &b"SHORT.BIN\0\0\0"[..],
            &b"EMPTY\0\0\0\0\0\0\0"[..],
        ]
    );
    assert_eq!(files[0].size, 1500);
    assert_eq!(files[0].cluster, 3);
    assert!(!files[0].is_dir);
    assert!(files[1].is_dir);
    assert_eq!(files[4].cluster, 0x0001_0008);
}

#[test]
fn a_listing_is_cut_at_its_limit() {
    let all = list(&disk(), volume());
    assert_eq!(all.len(), 5);
    for max in 0..7usize {
        assert_eq!(list_up_to(&disk(), volume(), max), all[..max.min(5)].to_vec());
    }
}

#[test]
fn the_walk_keeps_raw_names() {
    let d = disk();
    let mut m = iter_root_dir(volume());
    let mut reads: Vec<u32> = Vec::new();
    loop {
        match m.next() {
            Next::Op(FsOp::Sector(lba)) => {
                reads.push(lba);
                m.answer(d.read(lba));
            }
            Next::Op(_) => panic!("only sectors are expected"),
            Next::Done(es) => {
                assert_eq!(es.len(), 5);
                assert_eq!(&es[0].name, b"README  TXT");
                assert_eq!(es[0].attr, 0x20);
                break;
            }
        }
    }
    assert_eq!(reads, vec![14, 15, 12, 18]);
}

#[test]
fn an_unreadable_directory_sector_ends_the_listing() {
    let mut d = disk();
    d.bad = Some(15);
    let files = list(&d, volume());
    assert_eq!(files.len(), 2);
    d.bad = Some(12);
    assert_eq!(list(&d, volume()).len(), 3);
}

#[test]
fn the_diagnostic_listing_shows_raw_names() {
    let d = disk();
    let mut m = fat32_list_files_debug(volume());
    let text = loop {
        match m.next() {
            Next::Op(FsOp::Sector(lba)) => m.answer(d.read(lba)),
            Next::Op(_) => panic!("only sectors are expected"),
            Next::Done(text) => break text,
        }
    };
    let text = String::from_utf8(text).unwrap();
    assert_eq!(
        text,
        "[fat32] Root directory listing:\n\
         [fat32]   [52 45 41 44 4D 45 20 20 54 58 54]       1500 bytes\n\
         [fat32]   [4F 56 45 52 4C 41 59 53 20 20 20] <DIR> 0 bytes\n\
         [fat32]   [45 56 45 4E 20 20 20 20 42 49 4E]       1024 bytes\n\
         [fat32]   [53 48 4F 52 54 20 20 20 42 49 4E]       1025 bytes\n\
         [fat32]   [45 4D 50 54 59 20 20 20 20 20 20]       0 bytes\n\
         [fat32] 5 entries total\n"
    );
}

#[test]
fn a_file_is_read_back_byte_for_byte() {
    let (ok, bytes) = read(&disk(), volume(), b"README  TXT");
    assert!(ok);
    assert_eq!(bytes.len(), 1500);
    for i in 0..1500 {
        assert_eq!(bytes[i], content(i));
    }
}

#[test]
fn a_file_that_fills_its_cluster_is_read_whole() {
    let (ok, bytes) = read(&disk(), volume(), b"EVEN    BIN");
    assert!(ok);
    assert_eq!(bytes.len(), 1024);
    assert_eq!(bytes[1023], content(1123));
}

#[test]
fn an_empty_file_is_found() {
    assert_eq!(read(&disk(), volume(), b"EMPTY      "), (true, vec![]));
}

#[test]
fn a_missing_file_is_not_found() {
    assert_eq!(read(&disk(), volume(), b"NOSUCH  TXT"), (false, vec![]));
    assert_eq!(read(&disk(), volume(), b"HIDDEN  TXT"), (false, vec![]));
}

#[test]
fn a_chain_that_is_too_short_is_a_failure() {
    let (ok, bytes) = read(&disk(), volume(), b"SHORT   BIN");
    assert!(!ok);
    assert_eq!(bytes.len(), 1024);
    assert_eq!(bytes[0], content(200));
}

#[test]
fn an_unreadable_file_sector_is_a_failure() {
    let mut d = disk();
    d.bad = Some(17);
    let (ok, bytes) = read(&d, volume(), b"README  TXT");
    assert!(!ok);
    assert_eq!(bytes.len(), 512);
}

fn load(d: &Disk, name: &[u8; 11], dest: u64) -> (u64, Vec<(u64, usize)>, Vec<u8>) {
    let mut m = load_file_to_addr(volume(), name, dest);
    let mut stores: Vec<(u64, usize)> = Vec::new();
    let mut memory: Vec<u8> = Vec::new();
    loop {
        match m.next() {
            Next::Op(LoadOp::Fs(FsOp::Sector(lba))) => m.answer(d.read(lba)),
            Next::Op(LoadOp::Fs(_)) => panic!("only sectors are expected"),
            Next::Op(LoadOp::Store(addr, bytes)) => {
                stores.push((addr, bytes.len()));
                memory.extend_from_slice(&bytes);
                m.answer(None);
            }
            Next::Done(n) => return (n, stores, memory),
        }
    }
}

#[test]
fn a_file_is_loaded_without_gaps() {
    let (n, stores, memory) = load(&disk(), b"README  TXT", 0x40_0000);
    assert_eq!(n, 1500);
    assert_eq!(stores, vec![(0x40_0000, 512), (0x40_0200, 512), (0x40_0400, 476)]);
    for i in 0..1500 {
        assert_eq!(memory[i], content(i));
    }
}

#[test]
fn a_file_that_cannot_be_loaded_counts_as_nothing() {
    assert_eq!(load(&disk(), b"NOSUCH  TXT", 0).0, 0);
    assert_eq!(load(&disk(), b"SHORT   BIN", 0).0, 0);
}

/// What `cat` prints, with each line feed expanded, and what it shows of the file.
fn cat(d: &Disk, name: &[u8; 11], args: &str) -> Vec<u8> {
    let mut m = cat_file(volume(), name, args.to_string());
    let mut line: Vec<u8> = Vec::new();
    loop {
        match m.next() {
            Next::Op(CatOp::Fs(FsOp::Sector(lba))) => m.answer(d.read(lba)),
            Next::Op(CatOp::Fs(_)) => panic!("only sectors are expected"),
            Next::Op(CatOp::Print(text)) => {
                for c in text {
                    if c == b'\n' {
                        line.push(b'\r');
                    }
                    line.push(c);
                }
                m.answer(None);
            }
            Next::Op(CatOp::Show(bytes)) => {
                line.extend_from_slice(&bytes);
                m.answer(None);
            }
            Next::Done(()) => return line,
        }
    }
}

#[test]
fn a_file_is_shown_between_its_heading_and_its_end() {
    let mut d = disk();
    d.sectors[16][..6].copy_from_slice(b"a\r\nb\r\n");
    let mut want: Vec<u8> = b"--- readme.txt ---\r\n".to_vec();
    want.extend(b"a\nb\n");
    want.extend((6..1500).map(content).filter(|c| *c != b'\r'));
    want.extend(b"\r\n--- end ---\r\n");
    assert_eq!(cat(&d, b"README  TXT", "readme.txt"), want);
}

#[test]
fn a_long_file_is_cut_when_it_is_shown() {
    let mut d = disk();
    // Three clusters of text for README.TXT, the first byte a carriage return.
    put32(&mut d.sectors[12], 4 * 5, 6);
    entry(&mut d.sectors[14], 2, b"README  TXT", 0x20, 3, 3000);
    for s in [16, 17, 20, 21, 22, 23] {
        d.sectors[s] = [b'x'; 512];
    }
    d.sectors[16][0] = b'\r';
    let line = cat(&d, b"README  TXT", "README.TXT");
    let mut want: Vec<u8> = b"--- README.TXT ---\r\n".to_vec();
    want.extend([b'x'; 2048]);
    want.extend(b"\r\n--- end ---\r\n");
    assert_eq!(line, want);
}

#[test]
fn a_missing_file_is_named_when_it_is_shown() {
    assert_eq!(
        cat(&disk(), b"NOSUCH  TXT", "nosuch.txt"),
        b"--- nosuch.txt ---\r\nFile not found: nosuch.txt\r\n".to_vec()
    );
}
