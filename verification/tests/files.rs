use overlay_node::files::{chunk_body, handle_request, relative_path, FileResponse, CHUNK_SIZE};

#[test]
fn the_relative_path_is_the_path_without_its_slash() {
    assert_eq!(relative_path(b"/index.html"), b"index.html".to_vec());
    assert_eq!(relative_path(b"/a/b.txt"), b"a/b.txt".to_vec());
    assert_eq!(relative_path(b"/"), Vec::<u8>::new());
}

#[test]
fn a_body_is_cut_into_pieces_of_sixteen_kibibytes() {
    assert_eq!(CHUNK_SIZE, 16 * 1024);
    let data: Vec<u8> = (0..40_000u32).map(|i| (i % 251) as u8).collect();
    let chunks = chunk_body(&data);
    assert_eq!(chunks.len(), 3);
    assert_eq!(chunks[0].len(), 16384);
    assert_eq!(chunks[1].len(), 16384);
    assert_eq!(chunks[2].len(), 40_000 - 2 * 16384);
    assert_eq!(chunks.concat(), data);
    assert_eq!(chunks[1][0], data[16384]);
}

#[test]
fn a_body_of_whole_pieces_has_no_empty_piece() {
    let data = vec![7u8; 2 * 16384];
    let chunks = chunk_body(&data);
    assert_eq!(chunks.len(), 2);
    assert_eq!(chunks[0], vec![7u8; 16384]);
    assert_eq!(chunks[1], vec![7u8; 16384]);
    assert_eq!(chunk_body(&vec![1u8; 16384]).len(), 1);
    assert_eq!(chunk_body(&vec![1u8; 16385]).len(), 2);
    assert_eq!(chunk_body(&vec![1u8; 16385])[1], vec![1u8]);
}

#[test]
fn a_small_body_is_one_piece_and_an_empty_one_none() {
    assert_eq!(chunk_body(b"hello"), vec![b"hello".to_vec()]);
    assert_eq!(chunk_body(b""), Vec::<Vec<u8>>::new());
}

#[test]
fn a_file_that_is_there_is_sent() {
    assert_eq!(
        handle_request(Some(b"<html></html>")),
        FileResponse { status: 200, chunks: vec![b"<html></html>".to_vec()] }
    );
    assert_eq!(handle_request(Some(b"")), FileResponse { status: 200, chunks: Vec::new() });
}

#[test]
fn a_file_that_is_not_there_is_not_found() {
    assert_eq!(
        handle_request(None),
        FileResponse { status: 404, chunks: vec![b"Not Found".to_vec()] }
    );
}
