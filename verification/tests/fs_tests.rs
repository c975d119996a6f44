use easy_fs::disk::MemDisk;
use easy_fs::efs::EasyFileSystem;
use easy_fs::layout::{DiskInode, DiskInodeType, DirEntry, SuperBlock};
use easy_fs::block_cache::BlockCache;

#[test]
fn superblock_roundtrip() {
    let mut sb = SuperBlock {
        magic: 0,
        total_blocks: 0,
        inode_bitmap_blocks: 0,
        inode_area_blocks: 0,
        data_bitmap_blocks: 0,
        data_area_blocks: 0,
    };
    sb.initialize(8192, 1, 1366, 2, 6822);
    assert!(sb.is_valid());
    let bytes = sb.encode();
    let back = SuperBlock::decode(&bytes);
    assert_eq!(back.total_blocks, 8192);
    assert_eq!(back.inode_bitmap_blocks, 1);
    assert!(back.is_valid());
}

#[test]
fn dirent_name_roundtrip() {
    let name = b"filea".to_vec();
    let de = DirEntry::new(&name, 7);
    assert_eq!(de.name(), name);
    assert_eq!(de.inode_number(), 7);
    let bytes = de.encode();
    let back = DirEntry::decode(&bytes);
    assert_eq!(back.name(), name);
    assert_eq!(back.inode_number(), 7);
}

#[test]
fn dirent_name_27_bytes() {
    // a name of exactly 27 bytes is representable
    let name = vec![b'a'; 27];
    let de = DirEntry::new(&name, 1);
    assert_eq!(de.name().len(), 27);
}

#[test]
fn create_and_reopen() {
    let disk = MemDisk::new(8192);
    let mut fs = EasyFileSystem::create(disk, 8192, 1);
    assert_eq!(fs.total_blocks, 8192);
    fs.sync_all();
    let disk2 = fs.into_device();
    let fs2 = EasyFileSystem::open(disk2).ok().unwrap();
    assert_eq!(fs2.total_blocks, 8192);
    assert_eq!(fs2.max_inodes, 4096);
}

#[test]
fn open_rejects_bad_magic() {
    let disk = MemDisk::new(64);
    assert!(EasyFileSystem::open(disk).is_err());
}

#[test]
fn write_then_read_roundtrip() {
    let disk = MemDisk::new(8192);
    let mut fs = EasyFileSystem::create(disk, 8192, 1);
    let ino = fs.alloc_inode(DiskInodeType::File).unwrap();
    let h = fs.get_inode(ino);
    let data = b"Hello, world!".to_vec();
    let n = h.write_at(&mut fs, 0, &data).ok().unwrap();
    assert_eq!(n, 13);
    let mut buf = vec![0u8; 233];
    let got = h.read_at(&mut fs, 0, &mut buf);
    assert_eq!(got, 13);
    assert_eq!(&buf[..13], b"Hello, world!");
}

#[test]
fn clear_then_read_gives_zero() {
    let disk = MemDisk::new(8192);
    let mut fs = EasyFileSystem::create(disk, 8192, 1);
    let ino = fs.alloc_inode(DiskInodeType::File).unwrap();
    let h = fs.get_inode(ino);
    let data = vec![7u8; 4096];
    h.write_at(&mut fs, 0, &data).ok().unwrap();
    h.clear(&mut fs);
    let mut buf = vec![0u8; 16];
    assert_eq!(h.read_at(&mut fs, 0, &mut buf), 0);
}

#[test]
fn size_grows_under_write() {
    let disk = MemDisk::new(8192);
    let mut fs = EasyFileSystem::create(disk, 8192, 1);
    let ino = fs.alloc_inode(DiskInodeType::File).unwrap();
    let h = fs.get_inode(ino);
    let data = vec![1u8; 100];
    h.write_at(&mut fs, 500, &data).ok().unwrap();
    // size >= offset + len
    let mut buf = vec![0u8; 1000];
    let got = h.read_at(&mut fs, 0, &mut buf);
    assert_eq!(got, 600);
}

#[test]
fn file_boundaries_direct_and_indirect() {
    let disk = MemDisk::new(20000);
    let mut fs = EasyFileSystem::create(disk, 20000, 1);
    let ino = fs.alloc_inode(DiskInodeType::File).unwrap();
    let h = fs.get_inode(ino);
    // exactly 28 blocks (direct capacity), then cross into indirect range
    let mut data = Vec::new();
    for i in 0..(28 * 512) {
        data.push((i % 251) as u8);
    }
    assert_eq!(h.write_at(&mut fs, 0, &data).ok().unwrap(), 28 * 512);
    let more = vec![9u8; 512];
    assert_eq!(h.write_at(&mut fs, 28 * 512, &more).ok().unwrap(), 512);
    let mut buf = vec![0u8; 512];
    let got = h.read_at(&mut fs, 28 * 512, &mut buf);
    assert_eq!(got, 512);
    assert_eq!(buf, more);
    let mut first = vec![0u8; 512];
    h.read_at(&mut fs, 0, &mut first);
    assert_eq!(&first[..], &data[..512]);
}

#[test]
fn incremental_read_reassembles() {
    let disk = MemDisk::new(8192);
    let mut fs = EasyFileSystem::create(disk, 8192, 1);
    let ino = fs.alloc_inode(DiskInodeType::File).unwrap();
    let h = fs.get_inode(ino);
    // deterministic pseudo-random bytes
    let mut seed: u64 = 0x2545F4914F6CDD1D;
    let mut data = Vec::new();
    for _ in 0..(4 * 512) {
        seed = seed.wrapping_mul(6364136223846793005).wrapping_add(1442695040888963407);
        data.push((seed >> 33) as u8);
    }
    h.clear(&mut fs);
    h.write_at(&mut fs, 0, &data).ok().unwrap();
    let mut read_back = Vec::new();
    let mut offset = 0usize;
    loop {
        let mut chunk = vec![0u8; 127];
        let len = h.read_at(&mut fs, offset, &mut chunk);
        if len == 0 {
            break;
        }
        read_back.extend_from_slice(&chunk[..len]);
        offset += len;
    }
    assert_eq!(data, read_back);
}

#[test]
fn inode_alloc_is_lowest_free() {
    let disk = MemDisk::new(8192);
    let mut fs = EasyFileSystem::create(disk, 8192, 1);
    // root is inode 0
    let a = fs.alloc_inode(DiskInodeType::File).unwrap();
    let b = fs.alloc_inode(DiskInodeType::File).unwrap();
    assert_eq!(a, 1);
    assert_eq!(b, 2);
    fs.dealloc_inode(1);
    let c = fs.alloc_inode(DiskInodeType::File).unwrap();
    assert_eq!(c, 1);
}

#[test]
fn disk_inode_total_blocks_math() {
    assert_eq!(DiskInode::total_blocks(0), 0);
    assert_eq!(DiskInode::total_blocks(28 * 512), 28);
    assert_eq!(DiskInode::total_blocks(29 * 512), 30);
    assert_eq!(DiskInode::total_blocks(156 * 512), 157);
    assert_eq!(DiskInode::total_blocks(157 * 512), 160);
    assert_eq!(DiskInode::total_blocks(8468480), 16540 + 1 + 1 + 128);
}

#[test]
fn sync_all_makes_device_match() {
    let disk = MemDisk::new(8192);
    let mut fs = EasyFileSystem::create(disk, 8192, 1);
    let ino = fs.alloc_inode(DiskInodeType::File).unwrap();
    let h = fs.get_inode(ino);
    h.write_at(&mut fs, 0, &b"persist me".to_vec()).ok().unwrap();
    fs.sync_all();
    let fs2 = EasyFileSystem::open(fs.into_device()).ok().unwrap();
    let mut fs2 = fs2;
    let h2 = fs2.get_inode(ino);
    let mut buf = vec![0u8; 10];
    assert_eq!(h2.read_at(&mut fs2, 0, &mut buf), 10);
    assert_eq!(&buf[..], b"persist me");
}

#[test]
fn cache_read_write_bytes() {
    let disk = MemDisk::new(32);
    let mut cache = BlockCache::new(disk);
    cache.write_byte(3, 100, 42);
    assert_eq!(cache.read_byte(3, 100), 42);
    cache.write_u32(4, 8, 0xDEADBEEF);
    assert_eq!(cache.read_u32(4, 8), 0xDEADBEEF);
    // eviction pressure: touch more blocks than the cache holds
    for b in 0..20usize {
        cache.write_byte(b, 0, b as u8);
    }
    for b in 0..20usize {
        assert_eq!(cache.read_byte(b, 0), b as u8);
    }
    assert_eq!(cache.read_byte(3, 100), 42);
}

#[test]
fn create_and_find_in_root() {
    let disk = easy_fs::disk::MemDisk::new(8192);
    let mut fs = easy_fs::efs::EasyFileSystem::create(disk, 4096, 1);
    let root = fs.root_inode();
    let a = root.create(&mut fs, &b"filea".to_vec());
    assert!(a.is_ok());
    let b = root.create(&mut fs, &b"fileb".to_vec());
    assert!(b.is_ok());
    // the same name again collides
    assert!(matches!(
        root.create(&mut fs, &b"filea".to_vec()),
        Err(easy_fs::efs::FsError::AlreadyExists)
    ));
    // reserved and oversized names are rejected
    assert!(matches!(
        root.create(&mut fs, &b".".to_vec()),
        Err(easy_fs::efs::FsError::InvalidName)
    ));
    assert!(matches!(
        root.create(&mut fs, &b"..".to_vec()),
        Err(easy_fs::efs::FsError::InvalidName)
    ));
    assert!(matches!(
        root.create(&mut fs, &Vec::new()),
        Err(easy_fs::efs::FsError::InvalidName)
    ));
    assert!(matches!(
        root.create(&mut fs, &vec![b'x'; 28]),
        Err(easy_fs::efs::FsError::InvalidName)
    ));
    // a name of exactly 27 bytes is accepted
    assert!(root.create(&mut fs, &vec![b'y'; 27]).is_ok());
    // find sees exactly what was created, ls in creation order
    assert!(root.find(&mut fs, &b"filea".to_vec()).is_some());
    assert!(root.find(&mut fs, &b"fileb".to_vec()).is_some());
    assert!(root.find(&mut fs, &b"filec".to_vec()).is_none());
    let names = root.ls(&mut fs);
    assert_eq!(names.len(), 3);
    assert_eq!(names[0], b"filea".to_vec());
    assert_eq!(names[1], b"fileb".to_vec());
    assert_eq!(names[2], vec![b'y'; 27]);
    // every listed name resolves
    for n in names {
        assert!(root.find(&mut fs, &n).is_some());
    }
}

#[test]
fn mkdir_and_parent_links() {
    let disk = easy_fs::disk::MemDisk::new(8192);
    let mut fs = easy_fs::efs::EasyFileSystem::create(disk, 4096, 1);
    let root = fs.root_inode();
    let dir = root.mkdir(&mut fs, &b"dir".to_vec()).ok().unwrap();
    assert!(root.mkdir(&mut fs, &b"dir".to_vec()).is_err());
    assert!(dir.is_dir(&mut fs));
    // a nested child created inside the directory is found there, not at root
    let inner = dir.create(&mut fs, &b"inner".to_vec()).ok().unwrap();
    assert!(inner.is_file(&mut fs));
    assert!(dir.find(&mut fs, &b"inner".to_vec()).is_some());
    assert!(root.find(&mut fs, &b"inner".to_vec()).is_none());
    // the parent fields walk back up to the root, whose parent is itself
    let p = inner.parent(&mut fs);
    assert!(easy_fs::vfs::Inode::same_inode(&p, &dir));
    let pp = p.parent(&mut fs);
    assert!(easy_fs::vfs::Inode::same_inode(&pp, &root));
    let ppp = pp.parent(&mut fs);
    assert!(easy_fs::vfs::Inode::same_inode(&ppp, &root));
    // write through the nested file and read it back
    let data = b"nested payload".to_vec();
    assert_eq!(inner.write_at(&mut fs, 0, &data).ok().unwrap(), 14);
    let mut buf = vec![0u8; 14];
    assert_eq!(inner.read_at(&mut fs, 0, &mut buf), 14);
    assert_eq!(buf, data);
}

#[test]
fn directory_grows_past_one_block() {
    // more than BLOCK_SZ / 32 = 16 entries forces the directory's content
    // into a second block
    let disk = easy_fs::disk::MemDisk::new(8192);
    let mut fs = easy_fs::efs::EasyFileSystem::create(disk, 4096, 1);
    let root = fs.root_inode();
    let mut names = Vec::new();
    for i in 0..20u8 {
        let name = vec![b'f', b'0' + i / 10, b'0' + i % 10];
        assert!(root.create(&mut fs, &name).is_ok());
        names.push(name);
    }
    let listed = root.ls(&mut fs);
    assert_eq!(listed.len(), 20);
    for (i, n) in names.iter().enumerate() {
        assert_eq!(&listed[i], n);
        assert!(root.find(&mut fs, n).is_some());
    }
}

#[test]
fn create_survives_reopen() {
    let disk = easy_fs::disk::MemDisk::new(8192);
    let mut fs = easy_fs::efs::EasyFileSystem::create(disk, 4096, 1);
    let root = fs.root_inode();
    root.create(&mut fs, &b"kept".to_vec()).ok().unwrap();
    fs.sync_all();
    let mut fs2 = easy_fs::efs::EasyFileSystem::open(fs.into_device()).ok().unwrap();
    let root2 = fs2.root_inode();
    let names = root2.ls(&mut fs2);
    assert_eq!(names, vec![b"kept".to_vec()]);
    assert!(root2.find(&mut fs2, &b"kept".to_vec()).is_some());
}
