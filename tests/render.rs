use helios::render::{RenderContext, RenderTask};

fn columns(tasks: &[RenderTask]) -> Vec<(u64, u64)> {
    tasks.iter().map(|t| (t.from_x, t.to_x)).collect()
}

#[test]
fn tasks_split_columns_rounding_up() {
    let ctx = RenderContext::new(10, 4, 0u32);
    let tasks = ctx.get_tasks(3);
    assert_eq!(columns(&tasks), vec![(0, 4), (4, 8), (8, 10)]);
    for t in &tasks {
        assert_eq!(t.from_y, 0);
        assert_eq!(t.to_y, 4);
        assert_eq!(t.width, 10);
        assert_eq!(t.height, 4);
    }
}

#[test]
fn tasks_of_empty_image() {
    let ctx = RenderContext::new(0, 7, 0u32);
    assert!(ctx.get_tasks(6).is_empty());
}

#[test]
fn zero_tasks_asked_gives_whole_image() {
    let ctx = RenderContext::new(9, 2, 0u32);
    assert_eq!(columns(&ctx.get_tasks(0)), vec![(0, 9)]);
}

#[test]
fn more_tasks_than_columns() {
    let ctx = RenderContext::new(5, 1, 0u32);
    assert_eq!(
        columns(&ctx.get_tasks(9)),
        vec![(0, 1), (1, 2), (2, 3), (3, 4), (4, 5)]
    );
}

#[test]
fn tasks_cover_every_column_once() {
    for width in 0..40u64 {
        for threads in 0..8usize {
            let ctx = RenderContext::new(width, 3, 0u8);
            let tasks = ctx.get_tasks(threads * 3);
            let mut seen = vec![0u32; width as usize];
            for t in &tasks {
                assert!(t.from_x < t.to_x);
                assert!(t.to_x <= width);
                for x in t.xrange() {
                    seen[x as usize] += 1;
                }
            }
            assert!(seen.iter().all(|&n| n == 1), "width {} threads {}", width, threads);
        }
    }
}

#[test]
fn task_sizes() {
    let t = RenderTask { from_x: 3, from_y: 2, to_x: 7, to_y: 5, width: 10, height: 6 };
    assert_eq!(t.xrange_width(), 4);
    assert_eq!(t.yrange_height(), 3);
    assert_eq!(t.task_pixels_count(), 12);
    assert_eq!(t.xrange(), 3..7);
    assert_eq!(t.yrange(), 2..5);
}

#[test]
fn new_frame_has_one_pixel_per_position() {
    let ctx = RenderContext::new(2, 2, [0u8; 3]);
    assert_eq!(ctx.pixels.len(), 4);
    assert_eq!(ctx.rays_cast, 0);
    assert!(ctx.pixels.iter().all(|p| *p == [0u8; 3]));
}

#[test]
fn set_and_get_pixel() {
    let mut ctx = RenderContext::new(3, 2, 0u32);
    ctx.set_pixel(2, 1, 7);
    ctx.set_pixel(0, 1, 5);
    assert_eq!(ctx.get_pixel(2, 1), 7);
    assert_eq!(ctx.get_pixel(0, 1), 5);
    assert_eq!(ctx.get_pixel(2, 0), 0);
    assert_eq!(ctx.pixels, vec![0, 0, 0, 5, 0, 7]);
    ctx.set_pixel(2, 1, 9);
    assert_eq!(ctx.get_pixel(2, 1), 9);
}

#[test]
fn task_render_is_row_major() {
    let t = RenderTask { from_x: 1, from_y: 1, to_x: 3, to_y: 3, width: 4, height: 4 };
    let result = t.render(|x, y| (2, (x, y)));
    assert_eq!(result.pixels, vec![(1, 1), (2, 1), (1, 2), (2, 2)]);
    assert_eq!(result.rays_cast, 8);
}

#[test]
fn task_render_ray_count_saturates() {
    let t = RenderTask { from_x: 0, from_y: 0, to_x: 2, to_y: 1, width: 2, height: 1 };
    let result = t.render(|_, _| (u64::MAX - 1, 0u8));
    assert_eq!(result.rays_cast, u64::MAX);
}

#[test]
fn merge_copies_block_into_place() {
    let mut ctx = RenderContext::new(4, 3, 0u32);
    let t = RenderTask { from_x: 1, from_y: 1, to_x: 3, to_y: 3, width: 4, height: 3 };
    let result = t.render(|x, y| (1, 10 * y as u32 + x as u32));
    ctx.apply_render_result(&t, &result);
    assert_eq!(ctx.pixels, vec![0, 0, 0, 0, 0, 11, 12, 0, 0, 21, 22, 0]);
    assert_eq!(ctx.rays_cast, 4);
}

#[test]
fn tiny_frame_renders_every_pixel_in_range() {
    let mut ctx = RenderContext::new(2, 2, [0u8; 3]);
    let tasks = ctx.get_tasks(3);
    for t in tasks.iter().rev() {
        let result = t.render(|x, y| (1, [(x * 255) as u8, (y * 255) as u8, 128]));
        ctx.apply_render_result(t, &result);
    }
    assert_eq!(ctx.pixels.len(), 4);
    assert_eq!(ctx.rays_cast, 4);
    assert_eq!(ctx.get_pixel(0, 0), [0, 0, 128]);
    assert_eq!(ctx.get_pixel(1, 0), [255, 0, 128]);
    assert_eq!(ctx.get_pixel(0, 1), [0, 255, 128]);
    assert_eq!(ctx.get_pixel(1, 1), [255, 255, 128]);
}

#[test]
fn merge_order_does_not_change_frame() {
    let render = |order: &[usize]| {
        let mut ctx = RenderContext::new(7, 3, 0u64);
        let tasks = ctx.get_tasks(4);
        for &i in order {
            let t = &tasks[i];
            let result = t.render(|x, y| (1, x * 100 + y));
            ctx.apply_render_result(t, &result);
        }
        ctx.pixels
    };
    let forward = render(&[0, 1, 2, 3]);
    assert_eq!(forward, render(&[3, 1, 0, 2]));
    for y in 0..3u64 {
        for x in 0..7u64 {
            assert_eq!(forward[(y * 7 + x) as usize], x * 100 + y);
        }
    }
}
