use designer1_tools::inkstitch::{assemble_design, DesignLoadError};
use designer1_tools::model::{StitchCommand, Thread};
use designer1_tools::preview::{design_path_steps, PathStep};

fn rows() -> Vec<(i32, i32, String)> {
    vec![
        (0, 0, "JUMP".to_owned()),
        (10, 0, "stitch".to_owned()),
        (10, 10, "STITCH".to_owned()),
        (0, 0, "COLOR_CHANGE".to_owned()),
        (5, 5, "STITCH".to_owned()),
        (0, 0, "END".to_owned()),
        (9, 9, "STITCH".to_owned()),
    ]
}

#[test]
fn export_without_stitches_is_refused() {
    let err = assemble_design(None, "file".to_owned(), Vec::new(), Vec::new()).unwrap_err();
    assert_eq!(err, DesignLoadError::NoStitches);
}

#[test]
fn design_takes_export_name_unless_blank() {
    let d = assemble_design(Some("Rose".to_owned()), "file".to_owned(), Vec::new(), rows()).unwrap();
    assert_eq!(d.name, "Rose");
    let d = assemble_design(Some("  ".to_owned()), "file".to_owned(), Vec::new(), rows()).unwrap();
    assert_eq!(d.name, "file");
    let d = assemble_design(None, "file".to_owned(), Vec::new(), rows()).unwrap();
    assert_eq!(d.name, "file");
}

#[test]
fn missing_thread_list_becomes_one_black_thread() {
    let d = assemble_design(None, "f".to_owned(), Vec::new(), rows()).unwrap();
    assert_eq!(d.threads.len(), 1);
    assert_eq!(d.threads[0].color.as_deref(), Some("#000000"));
    assert_eq!(d.threads[0].description.as_deref(), Some("Black"));
    let red = Thread {
        color: Some("#ff0000".to_owned()),
        description: None,
        catalog_number: None,
        brand: None,
    };
    let d = assemble_design(None, "f".to_owned(), vec![red], rows()).unwrap();
    assert_eq!(d.threads[0].color.as_deref(), Some("#ff0000"));
}

#[test]
fn rows_become_points_with_commands() {
    let d = assemble_design(None, "f".to_owned(), Vec::new(), rows()).unwrap();
    assert_eq!(d.points.len(), 7);
    assert_eq!(d.points[0].command, StitchCommand::Jump);
    assert_eq!(d.points[1].command, StitchCommand::Stitch);
    assert_eq!((d.points[2].x, d.points[2].y), (10, 10));
    assert_eq!(d.points[3].command, StitchCommand::ColorChange);
    assert_eq!(d.points[5].command, StitchCommand::End);
}

#[test]
fn path_steps_lift_the_pen_and_stop_at_end() {
    let d = assemble_design(None, "f".to_owned(), Vec::new(), rows()).unwrap();
    let steps = design_path_steps(&d);
    assert_eq!(
        steps,
        vec![
            PathStep { line: false, x: 0, y: 0 },
            PathStep { line: false, x: 10, y: 0 },
            PathStep { line: true, x: 10, y: 10 },
            PathStep { line: false, x: 5, y: 5 },
        ]
    );
}
