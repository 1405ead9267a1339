use camcam::cnc_router::{
    append_decimal, decimal_string, optional_coordinate_words, CNCRouter, ShapeType, Smoothness, ToolType,
};

#[test]
pub fn test_shape_type() {
    let mut shape = ShapeType::new();
    assert_eq!(shape.0, 0);

    shape.set_text(true);
    assert_eq!(shape.0, 1);
    shape.set_text(false);
    assert_eq!(shape.0, 0);

    shape.set_braille(true);
    assert_eq!(shape.0, 2);
    shape.set_braille(false);
    assert_eq!(shape.0, 0);
    assert!(!shape.is_braille());
    assert!(!shape.is_text());

    shape.set_text(true);
    shape.set_braille(true);
    assert_eq!(shape.0, 3);

    assert!(shape.is_braille());
    assert!(shape.is_text());
}

#[test]
fn shape_type_constructors_and_subsets() {
    assert_eq!(ShapeType::text().0, 1);
    assert_eq!(ShapeType::braille().0, 2);
    assert_eq!(ShapeType::all().0, 3);
    assert!(ShapeType::text().subset_of(&ShapeType::all()));
    assert!(ShapeType::new().subset_of(&ShapeType::braille()));
    assert!(!ShapeType::all().subset_of(&ShapeType::text()));
    assert!(!ShapeType::text().subset_of(&ShapeType::braille()));
}

#[test]
fn shape_bits_are_independent() {
    let mut shape = ShapeType::all();
    shape.set_text(false);
    assert!(shape.is_braille());
    assert_eq!(shape.0, 2);
    shape.set_text(true);
    assert_eq!(shape.0, 3);
}

#[test]
fn smoothness_values_and_names() {
    assert_eq!(Smoothness::Rough.raw_value(), 0);
    assert_eq!(Smoothness::NoChange.raw_value(), 3);
    assert_eq!(Smoothness::Finish.description(), "Finish");
    assert_eq!(Smoothness::NoChange.description(), "No Change");
    assert_eq!(Smoothness::Medium.parameter_word(), "P2");
    assert_eq!(Smoothness::NoChange.parameter_word(), "");
    assert_eq!(Smoothness::default(), Smoothness::NoChange);
}

#[test]
fn tool_type_kinds() {
    assert_eq!(ToolType::default().raw_value(), 0);
    assert_eq!(ToolType::full_text().description(), "Full Contour");
    assert!(ToolType::full_text().is_text());
    assert!(!ToolType::full_text().is_braille());
    assert!(ToolType::full_braille().is_braille());
    assert!(ToolType::full_contour_all().is_text_or_braille());
    assert!(ToolType::FullCutBroad(true).is_broad());
    assert!(!ToolType::PartialCutBroad.is_broad());
    assert!(ToolType::DontAddCutBroad.dont_add_cut());
    assert!(ToolType::FullContour(ShapeType::text()).full_cut());
    assert!(!ToolType::PartialContourAngle(ShapeType::text()).full_cut());
    assert!(ToolType::FullContour(ShapeType::text()).is_same_type(&ToolType::PartialContourAngle(ShapeType::all())));
    assert!(!ToolType::FullContour(ShapeType::text()).is_same_type(&ToolType::FullContour(ShapeType::braille())));
    assert!(ToolType::FullCutBroad(false).is_same_type(&ToolType::SpaceBetweenCutBroad));
    assert!(ToolType::FullContour(ShapeType::text()) == ToolType::FullContour(ShapeType::all()));
    assert!(ToolType::PartialCutBroad != ToolType::SpaceBetweenCutBroad);
    assert_eq!(ToolType::PartialContourRadius(ShapeType::all()).to_shape_type().0, 3);
    assert_eq!(ToolType::PartialContourRadiusOrAngle(ShapeType::braille()).raw_value(), 7);
}

#[test]
fn decimal_numerals() {
    assert_eq!(decimal_string(0), "0");
    assert_eq!(decimal_string(7), "7");
    assert_eq!(decimal_string(907), "907");
    assert_eq!(decimal_string(u64::MAX), "18446744073709551615");
    let mut s = String::from("P");
    append_decimal(&mut s, 1500);
    assert_eq!(s, "P1500");
}

#[test]
fn repeated_rapid_move_drops_its_word() {
    let mut router = CNCRouter::from(false);
    assert_eq!(router.move_to_coordinate_rapid("X1 Y2 Z3"), "G00 X1 Y2 Z3\n");
    assert_eq!(router.move_to_coordinate_rapid("X4 Y5 Z6"), "X4 Y5 Z6\n");
    router.reset_settings();
    assert_eq!(router.move_to_coordinate_rapid("X4 Y5 Z6"), "G00 X4 Y5 Z6\n");
}

#[test]
fn repeated_linear_move_drops_its_word() {
    let mut router = CNCRouter::from(false);
    assert_eq!(router.move_to_coordinate("X1", " F20", false), "G01 G09 X1 F20\n");
    assert_eq!(router.move_to_coordinate("X2", "", false), "G09 X2\n");
    assert_eq!(router.move_to_coordinate("X3", "", true), "G31 G09 X3\n");
    assert_eq!(router.move_to_coordinate("X4", "", true), "G31 G09 X4\n");
}

#[test]
fn other_commands_always_write_their_word() {
    let mut router = CNCRouter::from(false);
    assert_eq!(router.use_xy_plane(), "G17 \n");
    assert_eq!(router.use_xy_plane(), "G17 \n");
    router.clear_gcode_command();
    assert_eq!(router.use_xz_plane(), "G18 \n");
    assert_eq!(router.use_yz_plane(), "G19 \n");
}

#[test]
fn verbose_lines_carry_notes() {
    let mut router = CNCRouter::from(true);
    assert!(router.get_verbose());
    assert_eq!(router.move_to_coordinate_rapid("X1"), "G00 X1 (Moves to position specified rapid.)\n");
    assert_eq!(router.program_stop(), "M00 ( Program Stop )\n");
    assert_eq!(router.move_to_coordinate("X1", "", true), "G31 G09 X1 (Cuts to position specified.) Can be skipped.\n");
    router.set_verbose(false);
    assert!(!router.get_verbose());
    assert_eq!(router.program_stop(), "M00 \n");
}

#[test]
fn program_control_lines() {
    let mut router = CNCRouter::from(false);
    assert_eq!(router.run_subprogram("9001"), "M98 P9001\n");
    assert_eq!(router.end_program(), "M02 \n");
    assert_eq!(router.end_program2(), "M30 \n%\n");
    assert_eq!(router.reset_home_and_return(), "G53 G0 Z0.\nX4.3125 \nG53 G0 Y0.\n");
    let mut loud = CNCRouter::from(true);
    assert_eq!(loud.run_subprogram("9001"), "M98 P9001 ( TOOL MSR )\n");
    assert_eq!(loud.end_program2(), "M30 (End of program)\n%\n");
}

#[test]
fn dwell_and_tool_offsets() {
    let mut router = CNCRouter::from(true);
    assert_eq!(router.dewel(1500), "G04 P1500 (Dewel for 1500 milliseconds.)\n");
    assert_eq!(router.set_tool_offset_positive(4), "G43 H4  (Set tool offset for tool 4.)\n");
    assert_eq!(router.set_tool_offset_negative(12), "G44 H12 (Set tool negative offset for tool 12.)\n");
    router.set_verbose(false);
    assert_eq!(router.dewel(0), "G04 P0\n");
    assert_eq!(router.set_tool_offset_positive(4), "G43 H4 \n");
}

#[test]
fn work_coordinate_words() {
    let mut router = CNCRouter::from(false);
    assert_eq!(router.set_work_coordinate(1, "X0 Y0 Z0"), "54 X0 Y0 Z0\n");
    assert_eq!(router.set_work_coordinate(5, "X1"), "58 X1\n");
    assert_eq!(router.set_work_coordinate(6, "X1"), "G59.0 X1\n");
    assert_eq!(router.set_work_coordinate(9, "X1"), "G59.3 X1\n");
}

#[test]
fn zero_position_checks() {
    let mut router = CNCRouter::from(false);
    let lines = router.check_for_zero_position(vec![String::from("A"), String::from("B")]);
    assert_eq!(lines, "G27 \nA\nG27 \nB\n");
    assert_eq!(router.move_to_coordinate_rapid("X1"), "G00 X1\n");
    assert_eq!(router.check_for_zero_position(Vec::new()), "");
    let mut loud = CNCRouter::from(true);
    assert_eq!(
        loud.check_for_zero_position(vec![String::from("G28")]),
        "G27  (Machine zero position check.)\nG28\n"
    );
}

#[test]
fn spindle_and_coolant() {
    let mut router = CNCRouter::from(true);
    assert_eq!(
        router.set_spindle_on(true, "1000.000000"),
        "S1000.000000 M04 (Set spindle on to counter clockwise.)\n"
    );
    assert_eq!(router.set_spindle_off(), "M05  (Turn off the spindle.)\n");
    assert_eq!(router.set_flood_colant(true), "M08 Set flood colant on.\n");
    router.set_verbose(false);
    assert_eq!(router.set_spindle_on(false, "12"), "S12 M03\n");
    assert_eq!(router.set_flood_colant(false), "M09 \n");
    assert_eq!(router.turn_fan(true), "M83 \n");
    assert_eq!(router.turn_fan(false), "M84 \n");
    assert_eq!(router.set_spindle_speed_fluctuation_detect(true), "");
}

#[test]
fn modes_and_cycles() {
    let mut router = CNCRouter::from(true);
    assert_eq!(router.set_accuracy_control(Smoothness::Medium), "G187 P2 (Set accuracy to Medium.)\n");
    assert_eq!(router.set_relative_mode(), "G91  (G91 changing to relative mode)\n");
    assert_eq!(router.set_absolute_mode(), "G90  (Set to absolute mode.)\n");
    assert_eq!(router.set_stroke_limit(false), "G23  (Stored stroke check off.)\n");
    assert_eq!(router.exact_stop_next_command(), "(G09 makes the line exact stop)\nG09 ");
    assert_eq!(router.turn_on_automatic_corner_override_mode(), "G62 G62 (Automatic corner override mode.)\n");
    router.set_verbose(false);
    assert_eq!(router.set_accuracy_control(Smoothness::NoChange), "G187 \n");
    assert_eq!(router.set_relative_mode(), "G91  (G91 changing to relative mode)\n");
    assert_eq!(router.exact_stop_next_command(), "G09 ");
    assert_eq!(router.set_feed_rate_to_units_per_minute(), "G94 \n");
    assert_eq!(router.set_feed_rate_to_units_per_revelution(), "G95 \n");
    assert_eq!(router.set_polar_coordinates(), "G15 \n");
    assert_eq!(router.set_stroke_limit(true), "G22 \n");
    assert_eq!(router.cancel_cutter_radius_offset(), "G40 \n");
    assert_eq!(router.cancel_cutter_radius_offset_left(), "G41 \n");
    assert_eq!(router.cancel_cutter_radius_offset_right(), "G42 \n");
    assert_eq!(router.cancel_tool_length_compensation(), "G49 \n");
    assert_eq!(router.scaling_factor_off(), "G50 \n");
    assert_eq!(router.turn_on_exact_stop_mode(), "G61 \n");
    assert_eq!(router.coordinate_system_rotation_cancel(), "G69 \n");
    assert_eq!(router.fixed_cycle_cancel(), "G80 \n");
    assert_eq!(router.stop_drilling_cycle(), "G82 \n");
    assert_eq!(router.start_extruding_heat(), "M104 \n");
    assert_eq!(router.start_bed_heat(), "M190 \n");
    router.set_exact_stop_on_y_change(true);
    assert_eq!(router.write_gcode_command("G54", ""), "G54 \n");
}

#[test]
fn optional_axis_words() {
    assert_eq!(optional_coordinate_words(Some("1"), Some("2"), Some("3")), "X1 Y2 Z3");
    assert_eq!(optional_coordinate_words(Some("1"), None, Some("3")), "X1 Z3");
    assert_eq!(optional_coordinate_words(None, Some("2"), Some("3")), "Y2Z3");
    assert_eq!(optional_coordinate_words(None, None, None), "");
}

#[test]
fn optional_moves_stop_exactly_on_height_changes() {
    let mut router = CNCRouter::from(false);
    assert_eq!(router.move_to_optional_coordinate(Some("1"), Some("2"), None, "", false), "G01 X1 Y2\n");
    assert_eq!(router.move_to_optional_coordinate(None, None, Some("0"), " F5", false), "G09 Z0 F5\n");
    assert_eq!(router.move_to_optional_coordinate(Some("1"), None, None, "", true), "G31 X1\n");
}

#[test]
fn going_home_writes_the_rapid_word_once() {
    let mut router = CNCRouter::from(false);
    assert_eq!(router.move_to_coordinate_rapid("X5"), "G00 X5\n");
    assert_eq!(router.go_home("X5 Z1", "X0 Y0 Z1"), "G00 X5 Z1\nX0 Y0 Z1\n");
    let mut loud = CNCRouter::from(true);
    assert_eq!(loud.go_home("A", "B"), "G00 A (return home z)\nB (return home)\n");
}

#[test]
fn tool_change_lines() {
    let router = CNCRouter::from(false);
    assert_eq!(router.tool_change(4), "T4 M6\n");
    let loud = CNCRouter::from(true);
    assert_eq!(loud.tool_change(12), "T12 M6 (Tool change.)\n");
}

#[test]
fn header_mode_lines() {
    let mut router = CNCRouter::from(true);
    assert_eq!(router.set_units(true), "G20  (Use inches)\n");
    assert_eq!(router.set_units(false), "G21  (Use millimiters)\n");
    assert_eq!(router.use_work_zero(), "G54  (Change 0 coordinate)\n");
    router.set_verbose(false);
    assert_eq!(router.use_work_zero(), "G54 \n");
}

#[test]
fn float_commands_compose_their_lines() {
    let mut router = CNCRouter::from(true);
    assert_eq!(router.exact_stop("X1 Y2 Z3"), "G09 X1 Y2 Z3\n");
    assert_eq!(
        router.return_to_referance_position("X1"),
        "G29 X1 (return to reference position through point specified.)\n"
    );
    assert_eq!(router.wait_until_extruder_reaches("200.000000"), "M109  (Wait until extruder reaches to 200.000000.)\n");
    assert_eq!(router.wait_until_bed_reaches("60"), "M106  (Wait until bed reaches to 60.)\n");
    assert_eq!(router.set_fan_speed("0.5"), "M106  (Set fan speed to 0.5.)\n");
    assert_eq!(router.go_home_incremental("X0 Y0 Z1"), "G91 G28 X0 Y0 Z1 G90 (return home through point specified)\n");
    assert_eq!(router.circular_interpolation(true, "X1 Y1 I0 J1"), "G02 X1 Y1 I0 J1\n");
    assert_eq!(router.circular_interpolation(true, "X2 Y2 I0 J1"), "G02 X2 Y2 I0 J1\n");
    assert_eq!(router.left_hand_threading_cycle("X1"), "G74 X1 (Left hand threading cycle.\n");
    assert_eq!(router.set_tool_offset("0.100000", "0.1"), "G43.1 Z0.100000 (Set current tool offset to be 0.1.)\n");
    assert_eq!(router.single_direction_positioning(Some("1"), None, None), "G60 X1 (Single direction positioning.)\n");
    assert_eq!(router.write_gcode_comment("hello"), "(hello)\n");
    router.set_verbose(false);
    assert_eq!(router.write_gcode_comment("hello"), "");
    assert_eq!(router.path_blending(Some("1"), Some("2")), "G64  P1 Q2\n");
    assert_eq!(router.path_blending(None, Some("2")), "G64 \n");
    assert_eq!(router.shift_position(Some("1"), None, Some("3")), "G92  X1 Z3\n");
    assert_eq!(router.set_tool_table_line(1, "R0.1 I0 J0 Q0"), "G10 L1 P1 axes R0.1 I0 J0 Q0\n");
    assert_eq!(router.drilling_cycle("X1"), "G81 X1\n");
    assert_eq!(router.fanuc_boring_cycle("X1"), "G85 X1\n");
    assert_eq!(router.scaling_factor_on("I0 J0 K0 P2"), "G51 I0 J0 K0 P2\n");
}

#[test]
fn tapping_restores_the_spindle() {
    let mut router = CNCRouter::from(false);
    assert_eq!(router.tap_make_hole("1", "100", "-1", "0", "1"), "M3 G91 G3 Z1 F100 M4 G32 Z-1 G90 M05\n");
    let _ = router.set_spindle_on(false, "500");
    assert_eq!(router.tap_make_hole("1", "100", "-1", "500", "1"), "M3 G91 G3 Z1 F100 M4 G32 Z-1 G90 M03 S500\n");
}
