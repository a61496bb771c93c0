use wave_collapse::color::Color;
use wave_collapse::error::RenderError;
use wave_collapse::model::Model;
use wave_collapse::render::{blend, push_decimal, push_header, push_pixel, serves};
use wave_collapse::tiles::Raster;
use wave_collapse::wave::Wave;
use wave_collapse::weight::UNIT;

fn text_of(bytes: Vec<u8>) -> String {
    String::from_utf8(bytes).unwrap()
}

fn numbered(count: usize) -> Vec<Color> {
    (0..count).map(|k| Color::new(k as u8, 100 + k as u8, 200)).collect()
}

#[test]
fn color_new_and_black() {
    let c = Color::new(1, 2, 3);
    assert_eq!((c.r, c.g, c.b), (1, 2, 3));
    assert_eq!(Color::black(), Color::new(0, 0, 0));
}

#[test]
fn color_mul_scales_and_rounds_down() {
    let c = Color::new(200, 40, 255);
    assert_eq!(c.mul(UNIT), c);
    assert_eq!(c.mul(0), Color::black());
    assert_eq!(c.mul(UNIT / 2), Color::new(100, 20, 127));
    assert_eq!(c.mul(UNIT / 4), Color::new(50, 10, 63));
}

#[test]
fn color_mul_stops_at_the_top() {
    assert_eq!(Color::new(200, 1, 0).mul(2 * UNIT), Color::new(255, 2, 0));
    assert_eq!(Color::new(255, 255, 1).mul(u32::MAX), Color::new(255, 255, 255));
}

#[test]
fn color_add_assign_stops_at_the_top() {
    let mut c = Color::new(200, 10, 255);
    c.add_assign(Color::new(100, 20, 1));
    assert_eq!(c, Color::new(255, 30, 255));
}

#[test]
fn blend_adds_the_weighted_payloads() {
    let catalog = vec![vec![Color::new(200, 100, 50)], vec![Color::new(40, 80, 255)]];
    let wave = Wave::from_weights(vec![UNIT / 2, UNIT / 4]);
    assert_eq!(blend(&catalog, &wave, 0), Color::new(110, 70, 88));
    let full = Wave::from_weights(vec![UNIT, UNIT]);
    assert_eq!(blend(&catalog, &full, 0), Color::new(240, 180, 255));
    assert_eq!(blend(&Vec::new(), &Wave::from_weights(Vec::new()), 0), Color::black());
}

#[test]
fn decimal_digits() {
    for (n, digits) in [(0usize, "0"), (7, "7"), (10, "10"), (255, "255"), (1234567, "1234567")] {
        let mut out = vec![b'x'];
        push_decimal(&mut out, n);
        assert_eq!(text_of(out), format!("x{}", digits));
    }
}

#[test]
fn header_and_pixel_lines() {
    let mut out = Vec::new();
    push_header(&mut out, 128, 64);
    push_pixel(&mut out, Color::new(0, 17, 255));
    assert_eq!(text_of(out), "P3\n128 64\n255\n0 17 255\n");
}

#[test]
fn serves_checks_the_payload_sizes() {
    let catalog = vec![numbered(4), numbered(5)];
    assert!(serves(&catalog, 1));
    assert!(serves(&catalog, 2));
    assert!(!serves(&catalog, 3));
    assert!(!serves(&catalog, 0));
    assert!(!serves(&catalog, usize::MAX));
    assert!(serves(&Vec::new(), 7));
    assert!(!serves(&Vec::new(), 0));
}

#[test]
fn dump_writes_one_line_for_each_pixel() {
    let catalog = vec![vec![Color::new(10, 20, 30)], vec![Color::new(1, 2, 3)]];
    let mut model = Model::new(catalog, 1);
    let waves = vec![
        Wave::from_weights(vec![UNIT, 0]),
        Wave::from_weights(vec![0, UNIT]),
        Wave::from_weights(vec![0, UNIT / 2]),
        Wave::from_weights(vec![UNIT, UNIT]),
        Wave::from_weights(vec![UNIT / 2, 0]),
        Wave::from_weights(vec![0, 3 * UNIT]),
    ];
    assert_eq!(model.set_waves(3, 2, waves), Ok(()));
    assert_eq!(
        text_of(model.dump().unwrap()),
        "P3\n3 2\n255\n10 20 30\n1 2 3\n0 1 1\n11 22 33\n5 10 15\n3 6 9\n"
    );
}

#[test]
fn dump_of_a_single_cell() {
    let mut model = Model::new(vec![vec![Color::new(10, 20, 30)]], 1);
    assert_eq!(model.collapse_from(1, 1, vec![Wave::from_weights(vec![UNIT])]), Ok(0));
    assert_eq!(text_of(model.dump().unwrap()), "P3\n1 1\n255\n10 20 30\n");
}

#[test]
fn dump_of_an_empty_grid_is_the_header() {
    let model = Model::new(vec![vec![Color::new(10, 20, 30)]], 1);
    assert_eq!(text_of(model.dump().unwrap()), "P3\n0 0\n255\n");
}

#[test]
fn dump_shows_the_tile_of_each_cell() {
    let mut model = Model::new(vec![numbered(4)], 2);
    let waves = (0..4).map(|_| Wave::from_weights(vec![UNIT])).collect();
    assert_eq!(model.set_waves(2, 2, waves), Ok(()));
    assert_eq!(
        text_of(model.dump().unwrap()),
        "P3\n2 2\n255\n0 100 200\n1 101 200\n2 102 200\n3 103 200\n"
    );
}

#[test]
fn dump_needs_a_catalog_that_serves_the_tile() {
    let short = Model::new(vec![numbered(3)], 2);
    assert_eq!(short.dump(), Err(RenderError::Catalog));
    let none = Model::new(vec![numbered(3)], 0);
    assert_eq!(none.dump(), Err(RenderError::Catalog));
}

#[test]
fn dump_refuses_after_a_contradiction() {
    let mut model =
        Model::with_table(vec![numbered(1), numbered(1)], 1, vec![vec![false; 2]; 2]).unwrap();
    let waves = (0..4).map(|_| Wave::from_weights(vec![UNIT, 7])).collect();
    assert!(model.collapse_from(2, 2, waves).is_err());
    assert_eq!(model.dump(), Err(RenderError::Contradiction { cell: 0 }));
}

#[test]
fn dump_state_writes_a_square_header() {
    let text = text_of(Model::dump_state(&numbered(4)));
    assert_eq!(text, "P3\n2 2\n255\n0 100 200\n1 101 200\n2 102 200\n3 103 200\n");
    assert_eq!(text_of(Model::dump_state(&Vec::new())), "P3\n0 0\n255\n");
    assert!(text_of(Model::dump_state(&numbered(10))).starts_with("P3\n3 3\n255\n"));
}

#[test]
fn raster_needs_one_pixel_for_each_place() {
    assert!(Raster::new(2, 2, numbered(4)).is_some());
    assert!(Raster::new(2, 2, numbered(3)).is_none());
    assert!(Raster::new(usize::MAX, 2, Vec::new()).is_none());
    let raster = Raster::new(4, 2, numbered(8)).unwrap();
    assert_eq!(raster.width(), 4);
    assert_eq!(raster.height(), 2);
    assert_eq!(raster.pixels(), &numbered(8));
}

#[test]
fn cut_goes_left_to_right_and_top_to_bottom() {
    let all = numbered(16);
    let raster = Raster::new(4, 4, all.clone()).unwrap();
    let tiles = raster.cut(2).unwrap();
    let pick = |at: [usize; 4]| -> Vec<Color> { at.iter().map(|k| all[*k]).collect() };
    assert_eq!(
        tiles,
        vec![pick([0, 1, 4, 5]), pick([2, 3, 6, 7]), pick([8, 9, 12, 13]), pick([10, 11, 14, 15])]
    );
    assert_eq!(raster.cut(1).unwrap().len(), 16);
    assert_eq!(raster.cut(4).unwrap(), vec![all]);
}

#[test]
fn cut_needs_a_side_that_divides_the_picture() {
    let raster = Raster::new(4, 2, numbered(8)).unwrap();
    assert!(raster.cut(0).is_none());
    assert!(raster.cut(3).is_none());
    assert!(raster.cut(4).is_none());
    assert_eq!(raster.cut(2).unwrap().len(), 2);
    let empty = Raster::new(0, 0, Vec::new()).unwrap();
    assert_eq!(empty.cut(5).unwrap().len(), 0);
}

#[test]
fn from_image_builds_the_catalog() {
    let raster = Raster::new(4, 2, numbered(8)).unwrap();
    let model = Model::from_image(&raster, 2).unwrap();
    assert_eq!(model.tile(), 2);
    assert_eq!(model.base_states().len(), 2);
    assert_eq!(model.base_states()[1], vec![Color::new(2, 102, 200), Color::new(3, 103, 200),
        Color::new(6, 106, 200), Color::new(7, 107, 200)]);
    assert_eq!(model.width(), 0);
    assert!(Model::from_image(&raster, 3).is_none());
    assert!(Model::from_image(&raster, 0).is_none());
}
