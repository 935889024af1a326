use teehee::view::{HexView, Redraw, WindowRequest};
use teehee::window::{ChunkRequest, Window};

fn file_bytes(n: usize) -> Vec<u8> {
    (0..n).map(|i| (i * 7 % 256) as u8).collect()
}

fn read(file: &[u8], req: &ChunkRequest) -> Vec<u8> {
    file[req.offset..req.offset + req.len].to_vec()
}

fn check_bounds(w: &Window, file: &[u8]) {
    let f = file.len();
    let c = w.chunk_size();
    assert!(w.len() >= std::cmp::min(f, c));
    assert!(w.len() <= 2 * c);
    assert!(w.start_offset() + w.len() <= f);
    assert_eq!(w.rope().to_vec(), file[w.start_offset()..w.start_offset() + w.len()].to_vec());
}

#[test]
fn window_refuses_bad_first_chunk() {
    assert!(Window::new(100, 0, vec![]).is_none());
    assert!(Window::new(100, 10, vec![0; 9]).is_none());
    assert!(Window::new(5, 10, vec![0; 5]).is_some());
}

#[test]
fn scenario_fetch_then_trim() {
    let file = file_bytes(10_000);
    let w = Window::new(10_000, 368, file[..368].to_vec()).unwrap();
    let mut view = HexView::with_window(w, (80, 25), "data".to_string());
    // A screen of 23 rows of 16 bytes shows the whole first chunk.
    let req = match view.manage_buffer() {
        WindowRequest::FetchBottom(r) => r,
        _ => panic!("the first screen reaches the window's bottom"),
    };
    assert_eq!(req, ChunkRequest { offset: 368, len: 368 });
    view.receive_bottom(&read(&file, &req));
    assert_eq!(view.window().len(), 736);
    assert_eq!(view.window().start_offset(), 0);
    assert_eq!(view.manage_buffer(), WindowRequest::Nothing);

    let mut fetches = 0;
    while view.manage_buffer() == WindowRequest::Nothing {
        match view.scroll_down(1, 0) {
            Redraw::Nothing => panic!("the window still goes on"),
            _ => {}
        }
    }
    let req = match view.manage_buffer() {
        WindowRequest::FetchBottom(r) => r,
        _ => panic!("the screen reached the window's bottom"),
    };
    assert!(req.len <= 368);
    fetches += 1;
    view.receive_bottom(&read(&file, &req));
    assert_eq!(fetches, 1);
    // Past two chunks: the first chunk was dropped.
    assert_eq!(view.window().start_offset(), 368);
    assert_eq!(view.window().len(), 736);
    check_bounds(view.window(), &file);
}

#[test]
fn window_stays_bounded_while_scrolling() {
    let file = file_bytes(3_000);
    let w = Window::new(3_000, 160, file[..160].to_vec()).unwrap();
    let mut view = HexView::with_window(w, (80, 12), "data".to_string());
    for step in 0..400 {
        match view.manage_buffer() {
            WindowRequest::FetchBottom(r) => view.receive_bottom(&read(&file, &r)),
            WindowRequest::FetchTop(r) => assert!(view.receive_top(&read(&file, &r))),
            WindowRequest::Nothing => {}
        }
        check_bounds(view.window(), &file);
        if step % 50 < 40 {
            view.scroll_down(1, 0);
        } else {
            view.scroll_up(2, 0);
        }
    }
}

#[test]
fn whole_file_in_one_window_needs_no_fetch() {
    let file = file_bytes(100);
    let w = Window::new(100, 368, file.clone()).unwrap();
    let view = HexView::with_window(w, (80, 25), "small".to_string());
    assert_eq!(view.manage_buffer(), WindowRequest::Nothing);
}

#[test]
fn top_chunk_is_prepended() {
    let file = file_bytes(1_000);
    let mut w = Window::new(1_000, 100, file[..100].to_vec()).unwrap();
    let req = w.bottom_request();
    assert_eq!(w.extend_bottom(&read(&file, &req)), 0);
    let req = w.bottom_request();
    assert_eq!(w.extend_bottom(&read(&file, &req)), 100);
    assert_eq!(w.start_offset(), 100);
    let req = w.top_request();
    assert_eq!(req, ChunkRequest { offset: 0, len: 100 });
    assert_eq!(w.extend_top(&vec![1, 2, 3]), None);
    assert_eq!(w.extend_top(&read(&file, &req)), Some(100));
    assert_eq!(w.start_offset(), 0);
    assert_eq!(w.len(), 200);
    check_bounds(&w, &file);
}

#[test]
fn near_edges() {
    let file = file_bytes(1_000);
    let w = Window::new(1_000, 100, file[..100].to_vec()).unwrap();
    assert!(w.is_near_bottom(95));
    assert!(!w.is_near_bottom(80));
    assert!(w.is_near_bottom(150));
    assert!(w.is_near_top(9));
    assert!(!w.is_near_top(10));
}
