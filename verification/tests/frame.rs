use rasterizer::color::Color;
use rasterizer::depth::Depth;
use rasterizer::scene::render_frame;
use rasterizer::scene::FrameError;
use rasterizer::scene::Mesh;
use rasterizer::scene::SceneError;
use rasterizer::scene::Vertex;
use rasterizer::scene::UNIT;
use rasterizer::surface::Drawer;
use rasterizer::surface::SurfaceError;
use rasterizer::vector::IVec3;
use rasterizer::vector::UVec2;

const NEG_INFINITY: i64 = i64::MIN;

/// The depth as a whole number; negative infinity is the least of them.
fn whole(depth: Option<Depth>) -> Option<i64> {
    depth.map(|d| {
        assert_eq!(d.part, 0);
        d.whole
    })
}

const WHITE: u32 = 0x00ff_ffff;

fn square() -> Mesh {
    Mesh {
        vertices: vec![
            Vertex::new(-UNIT, -UNIT, 0),
            Vertex::new(0, -UNIT, 0),
            Vertex::new(0, 0, 0),
            Vertex::new(-UNIT, 0, 0),
        ],
        faces: vec![[0, 1, 2], [0, 2, 3]],
    }
}

#[test]
fn from_pixels_keeps_the_picture() {
    let picture: Vec<u32> = (0..12).collect();
    let drawer = match Drawer::from_pixels(picture.clone(), 4, 3) {
        Ok(drawer) => drawer,
        Err(error) => panic!("no surface: {:?}", error),
    };
    assert_eq!(drawer.screen_size(), UVec2::new(4, 3));
    assert_eq!(drawer.get(UVec2::new(0, 3)), Some(0));
    assert_eq!(drawer.get(UVec2::new(3, 3)), Some(3));
    assert_eq!(drawer.get(UVec2::new(1, 1)), Some(9));
    for x in 0..4 {
        for y in 0..3 {
            assert_eq!(whole(drawer.depth_at(UVec2::new(x, y))), Some(NEG_INFINITY));
        }
    }
    assert_eq!(drawer.finish(), picture);
}

#[test]
fn from_pixels_rejects_a_picture_of_another_size() {
    assert_eq!(Drawer::from_pixels(vec![0; 11], 4, 3).err(), Some(SurfaceError::SizeMismatch));
    assert_eq!(Drawer::from_pixels(vec![0; 13], 4, 3).err(), Some(SurfaceError::SizeMismatch));
    assert_eq!(Drawer::from_pixels(vec![], 4, 3).err(), Some(SurfaceError::SizeMismatch));
    assert_eq!(Drawer::from_pixels(vec![0; 12], 3, 3).err(), Some(SurfaceError::SizeMismatch));
}

#[test]
fn from_pixels_rejects_a_side_of_zero_first() {
    assert_eq!(Drawer::from_pixels(vec![], 0, 3).err(), Some(SurfaceError::ZeroSize));
    assert_eq!(Drawer::from_pixels(vec![0; 12], 4, 0).err(), Some(SurfaceError::ZeroSize));
    assert_eq!(
        Drawer::from_pixels(vec![0; 12], u32::MAX, u32::MAX).err(),
        Some(SurfaceError::TooLarge)
    );
}

#[test]
fn drawing_on_a_picture_keeps_the_rest_of_it() {
    let mut drawer = match Drawer::from_pixels(vec![7; 16], 4, 4) {
        Ok(drawer) => drawer,
        Err(error) => panic!("no surface: {:?}", error),
    };
    drawer.triangle(
        [IVec3::new(0, 0, 1), IVec3::new(2, 0, 1), IVec3::new(0, 2, 1)],
        Color::new(0, 0, 9),
    );
    let expected: Vec<u32> = vec![
        7, 7, 7, 7, //
        7, 7, 7, 7, //
        9, 7, 7, 7, //
        9, 9, 7, 7,
    ];
    assert_eq!(drawer.finish(), expected);
}

#[test]
fn frame_is_cleared_and_rendered() {
    let frame = render_frame(vec![0x1234; 64], 8, 8, &vec![square()], Vertex::new(0, 0, -1));
    let picture = match frame {
        Ok(picture) => picture,
        Err(error) => panic!("no frame: {:?}", error),
    };
    assert_eq!(picture.len(), 64);
    for (i, word) in picture.iter().enumerate() {
        let column = i % 8;
        let height = 8 - i / 8;
        let inside = column <= 4 && height <= 4;
        assert_eq!(*word, if inside { WHITE } else { 0 });
    }
}

#[test]
fn frame_of_an_empty_scene_is_black() {
    assert_eq!(render_frame(vec![5; 6], 3, 2, &vec![], Vertex::new(0, 0, -1)), Ok(vec![0; 6]));
}

#[test]
fn frame_needs_a_picture_of_the_right_size() {
    let light = Vertex::new(0, 0, -1);
    assert_eq!(
        render_frame(vec![0; 63], 8, 8, &vec![square()], light),
        Err(FrameError::Surface(SurfaceError::SizeMismatch))
    );
    assert_eq!(
        render_frame(vec![], 0, 8, &vec![square()], light),
        Err(FrameError::Surface(SurfaceError::ZeroSize))
    );
    assert_eq!(
        render_frame(vec![], u32::MAX, u32::MAX, &vec![square()], light),
        Err(FrameError::Surface(SurfaceError::TooLarge))
    );
}

#[test]
fn frame_needs_a_scene_in_range() {
    let mut bad = square();
    bad.faces[1] = [0, 2, 4];
    assert_eq!(
        render_frame(vec![0; 64], 8, 8, &vec![square(), bad], Vertex::new(0, 0, -1)),
        Err(FrameError::Scene(SceneError::FaceOutOfRange { mesh: 1, face: 1 }))
    );
}

#[test]
fn frame_reports_the_picture_before_the_scene() {
    let mut bad = square();
    bad.faces[0] = [0, 2, 4];
    assert_eq!(
        render_frame(vec![0; 3], 8, 8, &vec![bad], Vertex::new(0, 0, -1)),
        Err(FrameError::Surface(SurfaceError::SizeMismatch))
    );
}
