use game_maps::{GameMap, GameMapSegment, GameMapTile};
use std::collections::HashSet;

/// A small generator of repeatable pseudo-random numbers.
struct Numbers(u64);

impl Numbers {
    fn next(&mut self) -> u64 {
        self.0 = self.0.wrapping_mul(6364136223846793005).wrapping_add(1442695040888963407);
        self.0 >> 33
    }

    fn below(&mut self, limit: u64) -> u64 {
        self.next() % limit
    }
}

fn counts(walls: &HashSet<(i64, i64)>, x: i64, y: i64) -> (u8, u8) {
    let mut sides = 0;
    let mut corners = 0;
    for (dx, dy) in [(-1, 0), (1, 0), (0, -1), (0, 1)] {
        if walls.contains(&(x + dx, y + dy)) {
            sides += 1;
        }
    }
    for (dx, dy) in [(-1, -1), (-1, 1), (1, -1), (1, 1)] {
        if walls.contains(&(x + dx, y + dy)) {
            corners += 1;
        }
    }
    (sides, corners)
}

fn triggers(walls: &HashSet<(i64, i64)>, x: i64, y: i64, dx: i64, dy: i64) -> (bool, bool) {
    let (sides, corners) = counts(walls, x, y);
    let yes = walls.contains(&(x, y)) && (sides <= 3 || corners <= 3);
    (yes, yes && walls.contains(&(x + dx, y + dy)))
}

/// The outline of a level, worked out step by step with plain loops.
fn outline_by_hand(
    wall_tiles: &[GameMapTile],
    spawn_tiles: &[GameMapTile],
) -> (Vec<GameMapSegment>, Vec<GameMapTile>) {
    let walls: HashSet<(i64, i64)> = wall_tiles.iter().map(|t| (t[0], t[1])).collect();
    let mut segments = Vec::new();
    let mut boundary = Vec::new();
    for tile in wall_tiles {
        let (sides, corners) = counts(&walls, tile[0], tile[1]);
        if sides + corners < 8 {
            boundary.push(*tile);
        }
    }
    let all = wall_tiles.iter().chain(spawn_tiles.iter());
    let min_x = all.clone().map(|t| t[0]).min().unwrap_or(i64::MAX);
    let max_x = all.clone().map(|t| t[0]).max().unwrap_or(i64::MIN);
    let min_y = all.clone().map(|t| t[1]).min().unwrap_or(i64::MAX);
    let max_y = all.clone().map(|t| t[1]).max().unwrap_or(i64::MIN);
    for y in min_y..=max_y {
        let mut tracking = false;
        let mut x_start = 0;
        for x in min_x..=max_x {
            let (yes, start) = triggers(&walls, x, y, 1, 0);
            if tracking {
                if !yes {
                    segments.push([x_start, y, x - 1, y]);
                    tracking = false;
                }
            } else if start {
                tracking = true;
                x_start = x;
            }
        }
    }
    for x in min_x..=max_x {
        let mut tracking = false;
        let mut y_start = 0;
        for y in min_y..=max_y {
            let (yes, start) = triggers(&walls, x, y, 0, 1);
            if tracking {
                if !yes {
                    segments.push([x, y_start, x, y - 1]);
                    tracking = false;
                }
            } else if start {
                tracking = true;
                y_start = y;
            }
        }
    }
    for tile in wall_tiles {
        let (sides, corners) = counts(&walls, tile[0], tile[1]);
        if sides + corners <= 2 {
            segments.push([tile[0], tile[1], tile[0], tile[1]]);
        }
    }
    (segments, boundary)
}

fn random_tiles(numbers: &mut Numbers) -> (Vec<GameMapTile>, Vec<GameMapTile>) {
    let width = 1 + numbers.below(9) as i64;
    let height = 1 + numbers.below(9) as i64;
    let left = numbers.below(41) as i64 - 20;
    let top = numbers.below(41) as i64 - 20;
    let walls_in_ten = 1 + numbers.below(9);
    let mut walls = Vec::new();
    let mut spawns = Vec::new();
    for y in 0..height {
        for x in 0..width {
            let draw = numbers.below(10);
            if draw < walls_in_ten {
                walls.push([left + x, top + y]);
            } else if numbers.below(12) == 0 {
                spawns.push([left + x, top + y]);
            }
        }
    }
    (walls, spawns)
}

#[test]
fn outline_of_random_levels() {
    let mut numbers = Numbers(2024);
    let mut with_segments = 0;
    for _ in 0..400 {
        let (walls, spawns) = random_tiles(&mut numbers);
        let (segments, boundary) = outline_by_hand(&walls, &spawns);
        let mut map = GameMap {
            wall_tiles: walls.clone(),
            spawn_tiles: spawns.clone(),
            wall_segments: Vec::new(),
            wall_segment_tiles: Vec::new(),
        };
        map.generate_segments();
        assert_eq!(map.wall_tiles, walls);
        assert_eq!(map.spawn_tiles, spawns);
        assert_eq!(map.wall_segments, segments);
        assert_eq!(map.wall_segment_tiles, boundary);
        if segments.iter().any(|s| s[0] != s[2] || s[1] != s[3]) {
            with_segments += 1;
        }
    }
    assert!(with_segments > 100);
}

#[test]
fn centering_of_random_levels() {
    let mut numbers = Numbers(7);
    for _ in 0..400 {
        let (walls, spawns) = random_tiles(&mut numbers);
        let all = walls.iter().chain(spawns.iter());
        let mut map = GameMap {
            wall_tiles: walls.clone(),
            spawn_tiles: spawns.clone(),
            wall_segments: Vec::new(),
            wall_segment_tiles: Vec::new(),
        };
        map.center_tiles();
        if walls.is_empty() && spawns.is_empty() {
            assert!(map.wall_tiles.is_empty() && map.spawn_tiles.is_empty());
            continue;
        }
        let min_x = all.clone().map(|t| t[0]).min().unwrap();
        let max_x = all.clone().map(|t| t[0]).max().unwrap();
        let min_y = all.clone().map(|t| t[1]).min().unwrap();
        let max_y = all.clone().map(|t| t[1]).max().unwrap();
        let offset = [(min_x + max_x) / 2, (min_y + max_y) / 2];
        let moved = |tiles: &Vec<GameMapTile>| -> Vec<GameMapTile> {
            tiles.iter().map(|t| [t[0] - offset[0], t[1] - offset[1]]).collect()
        };
        assert_eq!(map.wall_tiles, moved(&walls));
        assert_eq!(map.spawn_tiles, moved(&spawns));
        let bounds = map.get_bounds();
        assert_eq!(bounds.min_x, min_x - offset[0]);
        assert_eq!(bounds.max_x, max_x - offset[0]);
        assert_eq!(bounds.min_y, min_y - offset[1]);
        assert_eq!(bounds.max_y, max_y - offset[1]);
        assert!((bounds.min_x + bounds.max_x).abs() <= 1);
        assert!((bounds.min_y + bounds.max_y).abs() <= 1);
    }
}
