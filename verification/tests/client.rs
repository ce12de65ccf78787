use pixelsnake::codec::{
    encode_pixel, encode_pixels, encode_query, food_color, parse_i32, parse_pixel_line,
    response_color, snake_color, str_eq,
};
use pixelsnake::raster::Pixel;
use pixelsnake::snake::Snake;

fn seeded(direction: (i32, i32)) -> Snake {
    Snake {
        direction,
        points: vec![(50, 50), (100, 100)],
        size: 10,
        color: String::from("00FDFD"),
    }
}

#[test]
fn rasterize_count_and_color() {
    let snake = seeded((1, 0));
    let pixels = snake.pixels();
    assert_eq!(pixels.len(), 2 * 10 * 10);
    for p in pixels.iter() {
        assert_eq!(p.color, "00FDFD");
    }
}

#[test]
fn rasterize_block_positions() {
    let snake = Snake {
        direction: (0, 0),
        points: vec![(50, 50)],
        size: 10,
        color: String::from("00FDFD"),
    };
    let pixels = snake.pixels();
    assert_eq!(pixels.len(), 100);
    assert_eq!((pixels[0].x, pixels[0].y), (45, 45));
    assert_eq!((pixels[99].x, pixels[99].y), (54, 54));
    for p in pixels.iter() {
        assert!(45 <= p.x && p.x < 55);
        assert!(45 <= p.y && p.y < 55);
    }
}

#[test]
fn rasterize_size_zero_is_empty() {
    let snake = Snake {
        direction: (0, 0),
        points: vec![(3, 4)],
        size: 0,
        color: String::from("00FDFD"),
    };
    assert_eq!(snake.pixels().len(), 0);
}

#[test]
fn rasterize_odd_size_rounds_down() {
    let snake = Snake {
        direction: (0, 0),
        points: vec![(10, 10)],
        size: 3,
        color: String::from("00FDFD"),
    };
    // The half-open ranges span 2 * (3 / 2) = 2 values per axis.
    assert_eq!(snake.pixels().len(), 4);
}

#[test]
fn advance_moves_head_and_sheds_tail() {
    let mut snake = seeded((1, 0));
    snake.run();
    assert_eq!(snake.points, vec![(100, 100), (101, 100)]);
}

#[test]
fn advance_preserves_length() {
    let mut snake = seeded((0, 1));
    snake.run();
    assert_eq!(snake.points.len(), 2);
}

#[test]
fn advance_with_zero_direction_is_noop() {
    let mut snake = seeded((0, 0));
    snake.run();
    assert_eq!(snake.points, vec![(50, 50), (100, 100)]);
    assert_eq!(snake.direction, (0, 0));
}

#[test]
fn grow_prepends_behind_tail() {
    let mut snake = seeded((1, 0));
    snake.add_tail();
    assert_eq!(snake.points, vec![(49, 50), (50, 50), (100, 100)]);
}

#[test]
fn direction_setters_idempotent_and_independent() {
    let mut once = seeded((0, 0));
    once.up();
    let mut twice = seeded((0, 0));
    twice.up();
    twice.up();
    assert_eq!(once.direction, twice.direction);
    assert_eq!(once.direction, (0, -1));

    let mut mixed = seeded((0, 0));
    mixed.up();
    mixed.left();
    assert_eq!(mixed.direction, (-1, 0));
    let mut plain = seeded((0, 0));
    plain.left();
    assert_eq!(mixed.direction, plain.direction);
}

#[test]
fn next_head_is_pure() {
    let snake = seeded((1, 0));
    let a = snake.next();
    let b = snake.next();
    assert_eq!(a, b);
    assert_eq!(a, (101, 100));
    assert_eq!(snake.points, vec![(50, 50), (100, 100)]);
    assert_eq!(snake.direction, (1, 0));
}

#[test]
fn head_of_empty_body_is_origin() {
    let snake = Snake {
        direction: (0, 0),
        points: vec![],
        size: 10,
        color: String::from("00FDFD"),
    };
    assert_eq!(snake.head(), (0, 0));
}

#[test]
fn encode_pixel_exact() {
    let p = Pixel { x: 10, y: 20, color: String::from("FD00FD") };
    assert_eq!(encode_pixel(&p), "PX 10 20 FD00FD\n");
}

#[test]
fn encode_pixel_negative_coordinates() {
    let p = Pixel { x: -5, y: -2147483648, color: String::from("00FDFD") };
    assert_eq!(encode_pixel(&p), "PX -5 -2147483648 00FDFD\n");
}

#[test]
fn encode_pixels_concatenates_lines() {
    let ps = vec![
        Pixel { x: 1, y: 2, color: String::from("00FDFD") },
        Pixel { x: 3, y: 4, color: String::from("00FDFD") },
    ];
    assert_eq!(encode_pixels(&ps), "PX 1 2 00FDFD\nPX 3 4 00FDFD\n");
}

#[test]
fn encode_query_has_no_newline() {
    assert_eq!(encode_query(5, 7), "PX 5 7");
    assert_eq!(encode_query(-1, 0), "PX -1 0");
}

#[test]
fn round_trip_recovers_pixel() {
    let p = Pixel { x: -7, y: 42, color: String::from("AbCdEf") };
    let line = encode_pixel(&p);
    let parsed = parse_pixel_line(&line).expect("the encoded line parses");
    assert_eq!(parsed.0, -7);
    assert_eq!(parsed.1, 42);
    assert_eq!(parsed.2, "AbCdEf");
}

#[test]
fn round_trip_extreme_coordinates() {
    let p = Pixel { x: 2147483647, y: -2147483648, color: String::from("000000") };
    let line = encode_pixel(&p);
    let parsed = parse_pixel_line(&line).expect("the encoded line parses");
    assert_eq!(parsed.0, 2147483647);
    assert_eq!(parsed.1, -2147483648);
    assert_eq!(parsed.2, "000000");
}

#[test]
fn parse_rejects_malformed_lines() {
    assert!(parse_pixel_line("").is_none());
    assert!(parse_pixel_line("nonsense").is_none());
    assert!(parse_pixel_line("PX 1 2").is_none());
    assert!(parse_pixel_line("PX 1 2 3 4").is_none());
    assert!(parse_pixel_line("px 1 2 FD00FD").is_none());
    assert!(parse_pixel_line("PX a 2 FD00FD").is_none());
    assert!(parse_pixel_line("PX 1 2147483648 FD00FD").is_none());
}

#[test]
fn parse_i32_accepts_and_rejects() {
    assert_eq!(parse_i32("0"), Some(0));
    assert_eq!(parse_i32("007"), Some(7));
    assert_eq!(parse_i32("2147483647"), Some(2147483647));
    assert_eq!(parse_i32("-2147483648"), Some(-2147483648));
    assert_eq!(parse_i32("2147483648"), None);
    assert_eq!(parse_i32("-2147483649"), None);
    assert_eq!(parse_i32(""), None);
    assert_eq!(parse_i32("-"), None);
    assert_eq!(parse_i32("1a"), None);
    // More than ten digits is rejected outright, leading zeros included.
    assert_eq!(parse_i32("00000000001"), None);
}

#[test]
fn response_color_takes_last_token() {
    assert_eq!(response_color("PX 1 2 ABCDEF\n"), "ABCDEF");
    assert_eq!(response_color("PX 1 2 ABCDEF"), "ABCDEF");
    assert_eq!(response_color("a b"), "b");
}

#[test]
fn response_color_falls_back_on_default() {
    assert_eq!(response_color(""), "000000");
    assert_eq!(response_color("\n"), "000000");
    assert_eq!(response_color("PX 1 2 \n"), "000000");
}

#[test]
fn input_bytes_steer_or_are_ignored() {
    let mut snake = seeded((0, 0));
    snake.apply_input(0x64);
    assert_eq!(snake.direction, (1, 0));
    snake.apply_input(0x7a);
    assert_eq!(snake.direction, (1, 0));
    snake.apply_input(b'w');
    assert_eq!(snake.direction, (0, -1));
    snake.apply_input(b's');
    assert_eq!(snake.direction, (0, 1));
    snake.apply_input(b'a');
    assert_eq!(snake.direction, (-1, 0));
    assert_eq!(snake.points, vec![(50, 50), (100, 100)]);
}

#[test]
fn step_on_food_grows_then_advances() {
    let mut snake = seeded((1, 0));
    snake.step(&food_color());
    assert_eq!(snake.points, vec![(50, 50), (100, 100), (101, 100)]);
}

#[test]
fn step_without_food_only_advances() {
    let mut snake = seeded((1, 0));
    snake.step("000000");
    assert_eq!(snake.points, vec![(100, 100), (101, 100)]);
}

#[test]
fn color_constants() {
    assert_eq!(snake_color(), "00FDFD");
    assert_eq!(food_color(), "FD00FD");
}

#[test]
fn str_eq_decides_equality() {
    assert!(str_eq("PX", "PX"));
    assert!(!str_eq("PX", "PY"));
    assert!(!str_eq("PX", "PX "));
    assert!(str_eq("", ""));
}

#[test]
fn wf_check_accepts_and_rejects() {
    assert!(seeded((0, 0)).is_wf());
    let empty = Snake {
        direction: (0, 0),
        points: vec![],
        size: 10,
        color: String::from("00FDFD"),
    };
    assert!(!empty.is_wf());
    let bad_dir = Snake {
        direction: (2, 0),
        points: vec![(1, 1)],
        size: 10,
        color: String::from("00FDFD"),
    };
    assert!(!bad_dir.is_wf());
    let bad_color = Snake {
        direction: (0, 0),
        points: vec![(1, 1)],
        size: 10,
        color: String::from("00GDFD"),
    };
    assert!(!bad_color.is_wf());
    let bad_size = Snake {
        direction: (0, 0),
        points: vec![(1, 1)],
        size: -1,
        color: String::from("00FDFD"),
    };
    assert!(!bad_size.is_wf());
}

#[test]
fn guards_catch_coordinate_limits() {
    let near_edge = Snake {
        direction: (1, 0),
        points: vec![(0, 0), (2147483647, 5)],
        size: 10,
        color: String::from("00FDFD"),
    };
    assert!(!near_edge.can_advance());
    let tail_edge = Snake {
        direction: (1, 0),
        points: vec![(-2147483648, 5)],
        size: 10,
        color: String::from("00FDFD"),
    };
    assert!(!tail_edge.can_grow());
    let fine = seeded((1, 0));
    assert!(fine.can_advance());
    assert!(fine.can_grow());
    assert!(fine.can_rasterize());
    let wide = Snake {
        direction: (0, 0),
        points: vec![(2147483647, 0)],
        size: 10,
        color: String::from("00FDFD"),
    };
    assert!(!wide.can_rasterize());
}
