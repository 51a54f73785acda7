use disc_xplorer::raw_volume::{AlignedReader, WINDOW};
use disc_xplorer::seek::Whence;
use disc_xplorer::source::ByteSource;

/// A device that refuses reads that are not whole sectors at window boundaries.
struct StrictDevice {
    data: Vec<u8>,
}

impl ByteSource for StrictDevice {
    fn read_exact_at(&mut self, pos: u64, n: u64) -> Result<Vec<u8>, String> {
        if pos % WINDOW != 0 {
            return Err(format!("unaligned read at {pos}"));
        }
        if n % 2048 != 0 {
            return Err(format!("partial sector read of {n}"));
        }
        if pos + n > self.data.len() as u64 {
            return Err("failed to fill whole buffer".to_string());
        }
        Ok(self.data[pos as usize..(pos + n) as usize].to_vec())
    }
}

fn device(len: usize) -> AlignedReader<StrictDevice> {
    let data: Vec<u8> = (0..len).map(|i| (i % 251) as u8).collect();
    AlignedReader::new(StrictDevice { data }, len as u64)
}

fn expect(at: u64, n: usize) -> Vec<u8> {
    (at..at + n as u64).map(|i| (i % 251) as u8).collect()
}

#[test]
fn an_unaligned_read_of_a_few_bytes_works() {
    let mut r = device(WINDOW as usize * 4);
    r.seek(Whence::Start(6)).unwrap();
    assert_eq!(r.read_exact(6).unwrap(), expect(6, 6));
}

#[test]
fn a_read_spanning_windows_is_reassembled() {
    let mut r = device(WINDOW as usize * 4);
    let at = WINDOW - 100;
    r.seek(Whence::Start(at)).unwrap();
    assert_eq!(r.read_exact(500).unwrap(), expect(at, 500));
}

#[test]
fn reading_the_tail_stops_at_the_end() {
    let len = WINDOW as usize * 2 + 4096;
    let mut r = device(len);
    assert_eq!(r.len(), len as u64);
    r.seek(Whence::Start(len as u64 - 10)).unwrap();
    let mut buf = Vec::new();
    loop {
        let b = r.read(32).unwrap();
        if b.is_empty() {
            break;
        }
        buf.extend_from_slice(&b);
    }
    assert_eq!(buf, expect(len as u64 - 10, 10));
    r.seek(Whence::Start(len as u64 + 50)).unwrap();
    assert_eq!(r.read(16).unwrap().len(), 0);
}

#[test]
fn seeking_from_end_and_current_lands_correctly() {
    let len = WINDOW as usize * 3;
    let mut r = device(len);
    assert_eq!(r.seek(Whence::End(-2048)).unwrap(), len as u64 - 2048);
    assert_eq!(r.seek(Whence::Current(-48)).unwrap(), len as u64 - 2096);
    assert_eq!(r.read_exact(8).unwrap(), expect(len as u64 - 2096, 8));
    assert!(r.seek(Whence::Start(0)).is_ok());
    assert!(r.seek(Whence::Current(-1)).is_err());
}

#[test]
fn nearby_reads_reuse_one_window() {
    let mut r = device(WINDOW as usize * 2);
    for at in [0u64, 16, 2048, 4096, WINDOW - 1] {
        r.seek(Whence::Start(at)).unwrap();
        let b = r.read_exact(1).unwrap();
        assert_eq!(b[0], (at % 251) as u8);
    }
    assert_eq!(r.held_window(), Some(0), "should still be the first window");
}
