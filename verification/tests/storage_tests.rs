use swarm_core::metadata::{FileInfo, FilePathInfo, Metadata};
use swarm_core::storage::{load_bitfield, mark_piece_complete, sidecar_len, write_spans, FileSpan};

fn md_two_files() -> Metadata {
    // file X of 10000 bytes, file Y of 30000 bytes, 16384-byte pieces:
    // total 40000 bytes over 3 pieces
    Metadata {
        announce: None,
        announce_list: vec![],
        info: FileInfo {
            files: vec![
                FilePathInfo { length: 10000, path: vec!["x.bin".to_string()] },
                FilePathInfo { length: 30000, path: vec!["y.bin".to_string()] },
            ],
            name: "content".to_string(),
            piece_length: 16384,
            pieces: vec![0; 60],
            private: None,
        },
        info_hash: vec![7; 20],
    }
}

fn apply_spans(files: &mut [Vec<u8>], spans: &[FileSpan], data: &[u8]) {
    for s in spans {
        let slice = &data[s.data_start..s.data_end];
        let off = s.file_offset as usize;
        files[s.file_index][off..off + slice.len()].copy_from_slice(slice);
    }
}

#[test]
fn multi_file_write_layout() {
    let md = md_two_files();

    // piece 0: bytes 0..10000 land in X, bytes 10000..16384 in Y at offset 0
    let spans = write_spans(&md, 0, 0, 16384);
    assert_eq!(spans.len(), 2);
    assert_eq!(spans[0].file_index, 0);
    assert_eq!(spans[0].file_offset, 0);
    assert_eq!((spans[0].data_start, spans[0].data_end), (0, 10000));
    assert_eq!(spans[1].file_index, 1);
    assert_eq!(spans[1].file_offset, 0);
    assert_eq!((spans[1].data_start, spans[1].data_end), (10000, 16384));

    // piece 1: writes Y at offsets 6384..22768
    let spans = write_spans(&md, 1, 0, 16384);
    assert_eq!(spans.len(), 1);
    assert_eq!(spans[0].file_index, 1);
    assert_eq!(spans[0].file_offset, 6384);
    assert_eq!((spans[0].data_start, spans[0].data_end), (0, 16384));

    // terminal piece: 40000 - 2*16384 = 7232 bytes at Y offsets 22768..30000
    let spans = write_spans(&md, 2, 0, 7232);
    assert_eq!(spans.len(), 1);
    assert_eq!(spans[0].file_index, 1);
    assert_eq!(spans[0].file_offset, 22768);
    assert_eq!((spans[0].data_start, spans[0].data_end), (0, 7232));
}

#[test]
fn write_coverage_read_back() {
    // after writing a full piece, reading the piece's byte range back from
    // the concatenated files yields exactly the written data
    let md = md_two_files();
    let mut files = vec![vec![0u8; 10000], vec![0u8; 30000]];
    let data: Vec<u8> = (0..16384u32).map(|i| (i % 251) as u8).collect();

    let spans = write_spans(&md, 0, 0, data.len());
    apply_spans(&mut files, &spans, &data);

    let concat: Vec<u8> = files.concat();
    assert_eq!(&concat[0..16384], &data[..]);
    assert!(concat[16384..].iter().all(|&b| b == 0));

    let data2: Vec<u8> = (0..16384u32).map(|i| (i % 13) as u8).collect();
    let spans = write_spans(&md, 1, 0, data2.len());
    apply_spans(&mut files, &spans, &data2);
    let concat: Vec<u8> = files.concat();
    assert_eq!(&concat[0..16384], &data[..]);
    assert_eq!(&concat[16384..32768], &data2[..]);
    assert!(concat[32768..].iter().all(|&b| b == 0));
}

#[test]
fn block_offset_write_within_piece() {
    let md = md_two_files();
    // a block-sized write in the middle of piece 0 crosses the file seam
    let spans = write_spans(&md, 0, 8192, 4096);
    assert_eq!(spans.len(), 2);
    assert_eq!(spans[0].file_index, 0);
    assert_eq!(spans[0].file_offset, 8192);
    assert_eq!((spans[0].data_start, spans[0].data_end), (0, 1808));
    assert_eq!(spans[1].file_index, 1);
    assert_eq!(spans[1].file_offset, 0);
    assert_eq!((spans[1].data_start, spans[1].data_end), (1808, 4096));
}

#[test]
fn bitfield_persistence() {
    // after a write completes, the loaded bitfield has the piece's bit set
    let np = 11usize;
    let mut sidecar = vec![0u8; sidecar_len(np)];
    assert_eq!(sidecar.len(), 2);

    mark_piece_complete(&mut sidecar, 4);
    let bits = load_bitfield(&sidecar, np);
    assert_eq!(bits.len(), np);
    for i in 0..np {
        assert_eq!(bits[i], i == 4);
    }

    mark_piece_complete(&mut sidecar, 10);
    let bits = load_bitfield(&sidecar, np);
    assert!(bits[4] && bits[10]);
    assert_eq!(bits.iter().filter(|&&b| b).count(), 2);
    // big-endian bit order within each byte
    assert_eq!(sidecar, vec![0b0000_1000, 0b0010_0000]);
}
