use ai_os::device_tree::setup_dtb;
use ai_os::linux_vm::{LINUX_DTB_ADDR, LINUX_INITRD_ADDR};

const BOOTARGS: &[u8] = b"console=tty1 console=ttyAMA0,115200 rdinit=/init panic=5\0";

fn put(d: &mut [u8], at: usize, v: u32) {
    d[at..at + 4].copy_from_slice(&v.to_be_bytes());
}

fn get(d: &[u8], at: usize) -> u32 {
    u32::from_be_bytes([d[at], d[at + 1], d[at + 2], d[at + 3]])
}

/// Writes a structure block and its strings.
struct Builder {
    block: Vec<u8>,
    strings: Vec<u8>,
}

impl Builder {
    fn new() -> Builder {
        Builder { block: Vec::new(), strings: Vec::new() }
    }

    fn word(mut self, v: u32) -> Builder {
        self.block.extend(v.to_be_bytes());
        self
    }

    fn pad(mut self) -> Builder {
        while self.block.len() % 4 != 0 {
            self.block.push(0);
        }
        self
    }

    fn begin(self, name: &str) -> Builder {
        let mut b = self.word(1);
        b.block.extend(name.as_bytes());
        b.block.push(0);
        b.pad()
    }

    fn prop(self, name: &str, value: &[u8]) -> Builder {
        let at = self.strings.len() as u32;
        let mut b = self.word(3).word(value.len() as u32).word(at);
        b.block.extend(value);
        b.strings.extend(name.as_bytes());
        b.strings.push(0);
        b.pad()
    }

    fn end(self) -> Builder {
        self.word(2)
    }

    fn nop(self) -> Builder {
        self.word(4)
    }

    /// The device tree in `room` bytes: the reservations at 40, the structure block at
    /// 56, and the strings block right behind it.
    fn finish(self, room: usize) -> Vec<u8> {
        let b = self.word(9);
        let mut d: Vec<u8> = vec![0xEE; room];
        let strings_at = 56 + b.block.len();
        let total = strings_at + b.strings.len();
        let header = [
            0xD00D_FEED,
            total as u32,
            56,
            strings_at as u32,
            40,
            17,
            16,
            0,
            b.strings.len() as u32,
            b.block.len() as u32,
        ];
        for (i, w) in header.iter().enumerate() {
            put(&mut d, 4 * i, *w);
        }
        d[40..56].fill(0);
        d[56..strings_at].copy_from_slice(&b.block);
        d[strings_at..total].copy_from_slice(&b.strings);
        d
    }
}

/// The nodes (as `/a/b`) and properties (as `/a/b:name`) with their values.
fn read(d: &[u8]) -> Vec<(String, Vec<u8>)> {
    let mut out = Vec::new();
    let mut path: Vec<String> = Vec::new();
    let (mut p, end) = (get(d, 8) as usize, get(d, 8) as usize + get(d, 36) as usize);
    let text = |from: usize| {
        let n = d[from..].iter().position(|b| *b == 0).unwrap();
        std::str::from_utf8(&d[from..from + n]).unwrap().to_string()
    };
    loop {
        let mark = get(d, p);
        p += 4;
        match mark {
            1 => {
                let name = text(p);
                p += name.len() / 4 * 4 + 4;
                path.push(name);
                out.push((path.join("/"), Vec::new()));
            }
            2 => {
                path.pop().unwrap();
            }
            3 => {
                let len = get(d, p) as usize;
                let name = get(d, p + 4);
                assert!(name < get(d, 32));
                let name = text(get(d, 12) as usize + name as usize);
                out.push((format!("{}:{}", path.join("/"), name), d[p + 8..p + 8 + len].to_vec()));
                p += 8 + (len + 3) / 4 * 4;
            }
            4 => {}
            9 => {
                assert!(path.is_empty());
                assert_eq!(p, end);
                return out;
            }
            _ => panic!("token {}", mark),
        }
    }
}

fn entry(name: &str, value: &[u8]) -> (String, Vec<u8>) {
    (name.to_string(), value.to_vec())
}

fn wanted(size: usize) -> Vec<(String, Vec<u8>)> {
    let end = (LINUX_INITRD_ADDR + size) as u32;
    vec![
        entry("/chosen:linux,initrd-start", &0x0200_0000u32.to_be_bytes()),
        entry("/chosen:linux,initrd-end", &end.to_be_bytes()),
        entry("/chosen:bootargs", BOOTARGS),
    ]
}

/// A device tree without a `chosen` node.
fn plain() -> Builder {
    Builder::new()
        .begin("")
        .prop("model", b"Raspberry Pi 4\0")
        .begin("cpus")
        .nop()
        .begin("cpu@0")
        .prop("reg", &[0, 0, 0, 0])
        .end()
        .end()
        .begin("memory@0")
        .prop("device_type", b"memory\0")
        .end()
        .end()
}

#[test]
fn a_chosen_node_is_added_to_the_root() {
    let before = plain().finish(1024);
    let mut d = before.clone();
    assert_eq!(setup_dtb(&mut d, 0x12_3456), LINUX_DTB_ADDR);
    let mut want = read(&before);
    want.push(entry("/chosen", &[]));
    want.extend(wanted(0x12_3456));
    assert_eq!(read(&d), want);
    // The structure block grows by the node, the strings block by the names; it is
    // moved behind the structure block.
    assert_eq!(get(&d, 36), get(&before, 36) + 120);
    assert_eq!(get(&d, 32), get(&before, 32) + 52);
    assert_eq!(get(&d, 12), get(&d, 8) + get(&d, 36));
    assert_eq!(get(&d, 4), get(&d, 12) + get(&d, 32));
    let names = get(&d, 4) as usize - 52;
    assert_eq!(
        &d[names..names + 52],
        &b"linux,initrd-start\0linux,initrd-end\0bootargs\0chosen\0"[..]
    );
    // The rest of the header, the reservations and the memory behind are as before.
    for i in [0, 8, 16, 20, 24, 28] {
        assert_eq!(get(&d, i), get(&before, i));
    }
    assert_eq!(d[40..56], before[40..56]);
    assert!(d[get(&d, 4) as usize..].iter().all(|b| *b == 0xEE));
}

#[test]
fn the_added_node_has_these_bytes() {
    let mut d = Builder::new().begin("").end().finish(1024);
    setup_dtb(&mut d, 0x100);
    assert_eq!((get(&d, 56), get(&d, 60)), (1, 0));
    assert_eq!(get(&d, 64), 1);
    assert_eq!(&d[68..76], b"chosen\0\0");
    assert_eq!((get(&d, 76), get(&d, 80), get(&d, 84)), (3, 4, 0));
    assert_eq!(get(&d, 88), 0x0200_0000);
    assert_eq!((get(&d, 92), get(&d, 96), get(&d, 100)), (3, 4, 19));
    assert_eq!(get(&d, 104), 0x0200_0100);
    assert_eq!((get(&d, 108), get(&d, 112), get(&d, 116)), (3, 57, 36));
    assert_eq!(&d[120..177], BOOTARGS);
    assert_eq!(&d[177..180], &[0, 0, 0]);
    assert_eq!((get(&d, 180), get(&d, 184), get(&d, 188)), (2, 2, 9));
}

#[test]
fn a_chosen_node_that_is_there_is_patched() {
    let mut d = Builder::new()
        .begin("")
        .prop("model", b"x\0")
        .begin("chosen")
        .prop("bootargs", b"quiet\0")
        .prop("stdout-path", b"serial0\0")
        .prop("linux,initrd-start", &[1, 2, 3, 4, 5, 6, 7, 8])
        .begin("bootargs")
        .prop("bootargs", b"inner\0")
        .end()
        .end()
        .begin("soc")
        .begin("chosen")
        .prop("bootargs", b"other\0")
        .end()
        .end()
        .end()
        .finish(1024);
    setup_dtb(&mut d, 7);
    let mut want = vec![
        entry("", &[]),
        entry(":model", b"x\0"),
        entry("/chosen", &[]),
    ];
    want.extend(wanted(7));
    want.extend([
        entry("/chosen:stdout-path", b"serial0\0"),
        entry("/chosen/bootargs", &[]),
        entry("/chosen/bootargs:bootargs", b"inner\0"),
        entry("/soc", &[]),
        entry("/soc/chosen", &[]),
        entry("/soc/chosen:bootargs", b"other\0"),
    ]);
    assert_eq!(read(&d), want);
}

#[test]
fn patching_twice_leaves_one_node() {
    let mut d = plain().finish(1024);
    setup_dtb(&mut d, 1);
    let size = get(&d, 36);
    setup_dtb(&mut d, 2);
    assert_eq!(get(&d, 36), size);
    let all = read(&d);
    assert_eq!(all.iter().filter(|e| e.0 == "/chosen").count(), 1);
    let set: Vec<_> = all.into_iter().filter(|e| e.0.starts_with("/chosen:")).collect();
    assert_eq!(set, wanted(2));
}

#[test]
fn strings_in_front_of_the_structure_are_found() {
    let d = plain().finish(1024);
    let (at, n) = (get(&d, 12) as usize, get(&d, 32) as usize);
    let strings = d[at..at + n].to_vec();
    let block = d[56..at].to_vec();
    let mut d = vec![0u8; 1024];
    let header =
        [0xD00D_FEED, 600, 400, 200, 40, 17, 16, 0, n as u32, block.len() as u32];
    for (i, w) in header.iter().enumerate() {
        put(&mut d, 4 * i, *w);
    }
    d[200..200 + n].copy_from_slice(&strings);
    d[400..400 + block.len()].copy_from_slice(&block);
    let mut want = read(&d);
    want.push(entry("/chosen", &[]));
    want.extend(wanted(0));
    setup_dtb(&mut d, 0);
    assert_eq!(read(&d), want);
}

fn stays(mut d: Vec<u8>) {
    let before = d.clone();
    assert_eq!(setup_dtb(&mut d, 1), LINUX_DTB_ADDR);
    assert_eq!(d, before);
}

#[test]
fn what_is_not_a_device_tree_stays_as_it_is() {
    stays(vec![0xD0, 0x0D, 0xFE]);
    let good = plain().finish(1024);
    let mut d = good.clone();
    put(&mut d, 0, 0xEDFE_0DD0);
    stays(d);
    // No end mark where the block ends.
    let mut d = good.clone();
    let n = get(&d, 36);
    put(&mut d, 36, n - 4);
    stays(d);
    let mut d = good.clone();
    put(&mut d, 36, n + 4);
    stays(d);
    // A name that does not end in the strings block.
    let mut d = good.clone();
    let n = get(&d, 32);
    put(&mut d, 32, n - 1);
    stays(d);
    // A structure block in the header.
    let mut d = good.clone();
    put(&mut d, 8, 36);
    stays(d);
    // Nodes that are not closed, two roots, a property without a node, an unknown
    // token, nothing at all.
    stays(Builder::new().begin("").begin("a").end().finish(1024));
    stays(Builder::new().begin("").end().begin("").end().finish(1024));
    stays(Builder::new().prop("a", &[]).begin("").end().finish(1024));
    stays(Builder::new().begin("").word(7).end().finish(1024));
    stays(Builder::new().finish(1024));
    stays(Builder::new().begin("").end().end().finish(1024));
}

#[test]
fn without_room_a_device_tree_stays_as_it_is() {
    let total = get(&plain().finish(1024), 4) as usize;
    stays(plain().finish(total + 171));
    let mut d = plain().finish(total + 172);
    setup_dtb(&mut d, 1);
    assert_eq!(get(&d, 4) as usize, total + 172);
}
