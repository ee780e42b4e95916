use frame_diff::{Frame, FrameContext, FrameError, PartialFrame, Raster};
use std::time::Duration;

fn uniform(width: u32, height: u32, p: u32) -> Raster<u32> {
    Raster::filled(width, height, p)
}

fn with_dots(width: u32, height: u32, dots: &[(u32, u32)]) -> Raster<u32> {
    let mut r = uniform(width, height, 0);
    for &(x, y) in dots {
        r.set(x, y, 0xffffff);
    }
    r
}

fn tiles_of(f: Frame<u32>) -> Vec<PartialFrame<u32>> {
    match f {
        Frame::PartialFrame(tiles) => tiles,
        Frame::KeyFrame(_) => panic!("expected a partial frame"),
    }
}

fn origins(tiles: &[PartialFrame<u32>]) -> Vec<(u32, u32, u32, u32)> {
    tiles
        .iter()
        .map(|t| (t.x, t.y, t.image.width, t.image.height))
        .collect()
}

#[test]
fn it_works() {
    let black = uniform(64, 64, 0);
    let dots = with_dots(64, 64, &[(1, 1), (20, 5), (40, 30), (10, 60), (63, 63)]);
    let mut ctx = FrameContext::new(Duration::from_secs(1), 10, black).unwrap();
    match ctx.push(&Duration::from_secs(2), dots).unwrap() {
        Frame::KeyFrame(_) => panic!("expected a partial frame"),
        Frame::PartialFrame(frames) => {
            assert_eq!(frames.len(), 5);
            for frame in &frames {
                assert_eq!(frame.image.width, 4);
                assert_eq!(frame.image.height, 4);
            }
        }
    }
}

#[test]
fn identical_frame_yields_empty_partial() {
    let mut ctx = FrameContext::new(Duration::from_secs(1), 10, uniform(16, 16, 7)).unwrap();
    let tiles = tiles_of(ctx.push(&Duration::from_secs(2), uniform(16, 16, 7)).unwrap());
    assert!(tiles.is_empty());
    assert_eq!(ctx.current, 1);
    assert_eq!(ctx.timestamp, Duration::from_secs(2));
}

#[test]
fn five_changed_blocks_give_five_tiles() {
    let mut ctx = FrameContext::new(Duration::from_secs(1), 10, uniform(16, 16, 0)).unwrap();
    let next = with_dots(16, 16, &[(0, 0), (5, 0), (15, 3), (2, 9), (15, 15)]);
    let tiles = tiles_of(ctx.push(&Duration::from_secs(2), next).unwrap());
    assert_eq!(
        origins(&tiles),
        vec![(0, 0, 1, 1), (5, 0, 1, 1), (15, 3, 1, 1), (2, 9, 1, 1), (15, 15, 1, 1)]
    );
    for t in &tiles {
        assert_eq!(t.image.get(0, 0), 0xffffff);
    }
    assert_eq!(ctx.current, 1);
}

#[test]
fn two_changes_in_one_block_give_one_tile() {
    let mut ctx = FrameContext::new(Duration::from_secs(1), 10, uniform(32, 32, 0)).unwrap();
    let next = with_dots(32, 32, &[(2, 2), (3, 3)]);
    let tiles = tiles_of(ctx.push(&Duration::from_secs(2), next).unwrap());
    assert_eq!(origins(&tiles), vec![(2, 2, 2, 2)]);
    assert_eq!(tiles[0].image.pixels, vec![0xffffff, 0, 0, 0xffffff]);
}

#[test]
fn keyframe_after_limit_partials() {
    let mut ctx = FrameContext::new(Duration::from_secs(0), 10, uniform(16, 16, 0)).unwrap();
    for i in 1..=10u64 {
        let next = with_dots(16, 16, &[((i % 16) as u32, 0)]);
        match ctx.push(&Duration::from_secs(i), next).unwrap() {
            Frame::PartialFrame(_) => {}
            Frame::KeyFrame(_) => panic!("keyframe too early"),
        }
        assert_eq!(ctx.current, i as usize);
    }
    let same = ctx.frame.duplicate();
    match ctx.push(&Duration::from_secs(11), same).unwrap() {
        Frame::KeyFrame(k) => {
            assert_eq!(k.width, 16);
            assert_eq!(k.pixels, ctx.frame.pixels);
        }
        Frame::PartialFrame(_) => panic!("expected a keyframe"),
    }
    assert_eq!(ctx.current, 0);
    let tiles = tiles_of(ctx.push(&Duration::from_secs(12), uniform(16, 16, 0)).unwrap());
    assert_eq!(tiles.len(), 1);
    assert_eq!(ctx.current, 1);
}

#[test]
fn zero_limit_always_keyframes() {
    let mut ctx = FrameContext::new(Duration::from_secs(0), 0, uniform(8, 8, 0)).unwrap();
    for i in 1..4u64 {
        match ctx.push(&Duration::from_secs(i), uniform(8, 8, i as u32)).unwrap() {
            Frame::KeyFrame(k) => assert_eq!(k.get(7, 7), i as u32),
            Frame::PartialFrame(_) => panic!("expected a keyframe"),
        }
        assert_eq!(ctx.current, 0);
    }
}

#[test]
fn edge_tiles_are_clipped_on_twenty_by_twenty() {
    let mut ctx = FrameContext::new(Duration::from_secs(1), 10, uniform(20, 20, 0)).unwrap();
    let next = with_dots(20, 20, &[(19, 19), (0, 19)]);
    let tiles = tiles_of(ctx.push(&Duration::from_secs(2), next).unwrap());
    assert_eq!(origins(&tiles), vec![(0, 18, 2, 2), (18, 18, 2, 2)]);
}

#[test]
fn edge_tiles_are_clipped_when_blocks_overrun() {
    let mut ctx = FrameContext::new(Duration::from_secs(1), 10, uniform(35, 20, 0)).unwrap();
    let next = with_dots(35, 20, &[(34, 19), (34, 0), (0, 19)]);
    let tiles = tiles_of(ctx.push(&Duration::from_secs(2), next).unwrap());
    assert_eq!(
        origins(&tiles),
        vec![(33, 0, 2, 2), (0, 18, 3, 2), (33, 18, 2, 2)]
    );
    for t in &tiles {
        assert!(t.x < 35 && t.y < 20);
        assert!(t.x + t.image.width <= 35 && t.y + t.image.height <= 20);
    }
    assert_eq!(tiles[2].image.pixels, vec![0, 0, 0, 0xffffff]);
}

#[test]
fn degenerate_frames_are_refused() {
    let empty: Raster<u32> = Raster::new(0, 5, Vec::new()).unwrap();
    assert!(matches!(
        FrameContext::new(Duration::from_secs(0), 3, empty),
        Err(FrameError::DegenerateImage)
    ));
    let flat: Raster<u32> = Raster::new(5, 0, Vec::new()).unwrap();
    assert!(matches!(
        FrameContext::new(Duration::from_secs(0), 3, flat),
        Err(FrameError::DegenerateImage)
    ));
}

#[test]
fn mismatched_dimensions_are_refused() {
    let mut ctx = FrameContext::new(Duration::from_secs(1), 3, uniform(16, 16, 0)).unwrap();
    let r = ctx.push(&Duration::from_secs(2), uniform(16, 17, 0));
    assert!(matches!(r, Err(FrameError::DimensionMismatch)));
    assert_eq!(ctx.current, 0);
    assert_eq!(ctx.timestamp, Duration::from_secs(1));
    assert_eq!(ctx.frame.height, 16);
}

#[test]
fn raster_new_needs_matching_pixel_count() {
    assert!(Raster::new(2, 3, vec![0u8; 6]).is_some());
    assert!(Raster::new(2, 3, vec![0u8; 5]).is_none());
    assert!(Raster::new(0, 3, vec![0u8; 1]).is_none());
    let r = Raster::new(2, 3, vec![1u8, 2, 3, 4, 5, 6]).unwrap();
    assert_eq!(r.get(1, 2), 6);
    assert_eq!(r.get(0, 1), 3);
}

#[test]
fn crop_cuts_at_the_edges() {
    let r = Raster::new(3, 3, vec![1u8, 2, 3, 4, 5, 6, 7, 8, 9]).unwrap();
    let c = r.crop(1, 1, 5, 5);
    assert_eq!((c.width, c.height), (2, 2));
    assert_eq!(c.pixels, vec![5, 6, 8, 9]);
    let inner = r.crop(0, 1, 2, 1);
    assert_eq!(inner.pixels, vec![4, 5]);
    let outside = r.crop(3, 0, 2, 2);
    assert_eq!((outside.width, outside.height), (0, 2));
    assert!(outside.pixels.is_empty());
}

#[test]
fn dirty_blocks_marks_row_major_entries() {
    let a = uniform(32, 16, 0);
    let b = with_dots(32, 16, &[(31, 0), (0, 15)]);
    let map = frame_diff::grid::dirty_blocks(&a, &b);
    assert_eq!(map.len(), 256);
    let set: Vec<usize> = (0..256).filter(|&k| map[k]).collect();
    assert_eq!(set, vec![15, 240]);
}

#[test]
fn zero_sized_frame_on_push_is_degenerate() {
    let mut ctx = FrameContext::new(Duration::from_secs(1), 3, uniform(16, 16, 0)).unwrap();
    let empty: Raster<u32> = Raster::new(0, 16, Vec::new()).unwrap();
    let r = ctx.push(&Duration::from_secs(2), empty);
    assert!(matches!(r, Err(FrameError::DegenerateImage)));
    let flat: Raster<u32> = Raster::new(16, 0, Vec::new()).unwrap();
    let r = ctx.push(&Duration::from_secs(3), flat);
    assert!(matches!(r, Err(FrameError::DegenerateImage)));
    assert_eq!(ctx.current, 0);
    assert_eq!(ctx.timestamp, Duration::from_secs(1));
    assert_eq!((ctx.frame.width, ctx.frame.height), (16, 16));
}
