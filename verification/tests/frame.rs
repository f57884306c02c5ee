use ropebuf::buffer::Buffer;
use ropebuf::frame_buffer::FrameBuffer;
use ropebuf::screen::Screen;
use ropebuf::window::Window;

#[test]
fn frame_buffer_starts_filled() {
    let fb = FrameBuffer::new(2, 3);
    assert_eq!(fb.dimensions(), (3, 2));
    for y in 0..2 {
        for x in 0..3 {
            assert_eq!(fb.get(y, x), 97);
        }
    }
}

#[test]
fn frame_buffer_resize_updates_dimensions_and_fill() {
    let mut fb = FrameBuffer::new(1, 2);
    fb.set_dimensions(4, 3);
    assert_eq!(fb.dimensions(), (3, 4));
    for y in 0..4 {
        for x in 0..3 {
            assert_eq!(fb.get(y, x), 97);
        }
    }
}

#[test]
fn frame_buffer_may_be_empty() {
    let fb = FrameBuffer::new(0, 5);
    assert_eq!(fb.dimensions(), (5, 0));
}

#[test]
fn screen_keeps_its_bounds() {
    let screen = Screen::new(24, 80);
    assert_eq!(screen.dimensions(), (24, 80));
}

#[test]
fn window_takes_dimensions() {
    let mut donor = Buffer::new();
    donor.insert(0, vec![1, 2, 3]).unwrap();
    let _w = Window::new(10, 40, donor);
}
