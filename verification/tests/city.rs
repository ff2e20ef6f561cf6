use hanger_lane::{Cell, Direction};
use hanger_lane::city::{City, Road};
use hanger_lane::network::Edge;

const DIRECTIONS: [Direction; 4] = [
    Direction::North,
    Direction::East,
    Direction::South,
    Direction::West,
];

fn contains_exactly_edges(actual: &[Edge], expected: &[Edge]) -> bool {
    if actual.len() != expected.len() {
        return false;
    }
    let mut used = vec![false; expected.len()];
    for a in actual {
        let mut found = false;
        for (i, e) in expected.iter().enumerate() {
            if !used[i] && a == e {
                used[i] = true;
                found = true;
                break;
            }
        }
        if !found {
            return false;
        }
    }
    true
}

fn contains_exactly_roads(actual: &[Road], expected: &[Road]) -> bool {
    if actual.len() != expected.len() {
        return false;
    }
    let mut used = vec![false; expected.len()];
    for a in actual {
        let mut found = false;
        for (i, e) in expected.iter().enumerate() {
            if !used[i] && a == e {
                used[i] = true;
                found = true;
                break;
            }
        }
        if !found {
            return false;
        }
    }
    true
}

#[test]
fn test_forward() {
    let city = City::new(3, 3);

    assert!(
        city.forward(&Cell { x: 0, y: 1, d: Direction::North })
            == Some(Cell { x: 0, y: 0, d: Direction::North })
    );
    assert!(city.forward(&Cell { x: 0, y: 0, d: Direction::North }) == None);
    assert!(
        city.forward(&Cell { x: 0, y: 1, d: Direction::South })
            == Some(Cell { x: 0, y: 2, d: Direction::South })
    );
    assert!(city.forward(&Cell { x: 0, y: 2, d: Direction::South }) == None);
    assert!(
        city.forward(&Cell { x: 1, y: 0, d: Direction::West })
            == Some(Cell { x: 0, y: 0, d: Direction::West })
    );
    assert!(city.forward(&Cell { x: 0, y: 0, d: Direction::West }) == None);
    assert!(
        city.forward(&Cell { x: 1, y: 0, d: Direction::East })
            == Some(Cell { x: 2, y: 0, d: Direction::East })
    );
    assert!(city.forward(&Cell { x: 2, y: 0, d: Direction::East }) == None);
}

#[test]
fn test_get_index_get_cell() {
    let city = City::new(5, 3);

    let mut cells = Vec::with_capacity(city.width * city.height * 4);

    for y in 0..city.height {
        for x in 0..city.width {
            for d in DIRECTIONS.iter() {
                cells.push(Cell { x, y, d: d.clone() });
            }
        }
    }

    for (index, cell) in cells.iter().enumerate() {
        assert!(city.get_index(cell) == index);
        assert!(city.get_cell(index) == *cell);
    }
}

#[test]
fn test_create_edges() {
    let mut city = City::new(3, 3);

    city.roads = vec![
        Road::new(1, 0, Direction::North, Direction::East),
        Road::new(2, 0, Direction::East, Direction::South),
        Road::new(2, 1, Direction::South, Direction::West),
        Road::new(1, 1, Direction::West, Direction::North),
    ];

    let actual = city.create_edges();
    let expected = vec![
        Edge::new(4, 9, 1),
        Edge::new(9, 22, 1),
        Edge::new(22, 19, 1),
        Edge::new(19, 4, 1),
    ];

    assert!(contains_exactly_edges(&actual, &expected));
}

#[test]
fn test_with_all_roads() {
    let city = City::_with_all_roads(1, 1);

    let expected = vec![
        Road::new(0, 0, Direction::North, Direction::East),
        Road::new(0, 0, Direction::North, Direction::North),
        Road::new(0, 0, Direction::North, Direction::West),
        Road::new(0, 0, Direction::East, Direction::North),
        Road::new(0, 0, Direction::East, Direction::East),
        Road::new(0, 0, Direction::East, Direction::South),
        Road::new(0, 0, Direction::South, Direction::East),
        Road::new(0, 0, Direction::South, Direction::South),
        Road::new(0, 0, Direction::South, Direction::West),
        Road::new(0, 0, Direction::West, Direction::North),
        Road::new(0, 0, Direction::West, Direction::West),
        Road::new(0, 0, Direction::West, Direction::South),
    ];

    assert!(contains_exactly_roads(&city.roads, &expected));

    let city = City::_with_all_roads(5, 3);

    assert!(city.roads.len() == 180);
}
