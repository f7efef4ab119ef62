use shapeproc::kml::{
    clean_name, indent, register_line_styles, register_styles, resolve_geo_polygons,
    resolve_line_polygons, GeoState, HeightState, KmlEvent, LinesState, NonemptyTagState,
    TagChildState,
};
use shapeproc::logger::Logger;

#[test]
fn indent_gives_two_spaces_per_level() {
    assert_eq!(indent(0), "");
    assert_eq!(indent(1), "  ");
    assert_eq!(indent(3), "      ");
}

#[test]
fn clean_name_lowers_and_strips_braces() {
    assert_eq!(clean_name(String::from("Placemark")), "placemark");
    assert_eq!(
        clean_name(String::from("{http://earth}Folder")),
        "folder"
    );
    assert_eq!(clean_name(String::from("a{x}b{y}C")), "abc");
}

#[test]
fn styles_register_in_order() {
    let raw = vec![
        (String::from("red"), String::from("ff0000ff"), '1'),
        (String::from("red"), String::from("00000000"), '0'),
        (String::from("dim"), String::from("102030"), '0'),
    ];
    let mut colmap = Vec::new();
    let mut styles = Vec::new();
    let mut counter = 0usize;
    let r = register_styles(raw, &mut colmap, &mut styles, &mut counter);
    assert!(r.is_ok());
    // the duplicate id is skipped; the colour keeps its last three
    // bytes as red, green, blue
    assert_eq!(counter, 2);
    assert_eq!(styles, vec![(1, 0, 0, 255), (0, 16, 32, 48)]);
    assert_eq!(colmap.len(), 2);
    assert_eq!(colmap[0], (String::from("red"), 0));
    assert_eq!(colmap[1], (String::from("dim"), 1));
}

#[test]
fn bad_hex_colour_fails() {
    let raw = vec![(String::from("odd"), String::from("fff"), '0')];
    let mut colmap = Vec::new();
    let mut styles = Vec::new();
    let mut counter = 0usize;
    let r = register_styles(raw, &mut colmap, &mut styles, &mut counter);
    assert!(r.is_err());

    let raw2 = vec![(String::from("short"), String::from("ffaa"), '0')];
    let mut colmap2 = Vec::new();
    let mut styles2 = Vec::new();
    let mut counter2 = 0usize;
    let r2 = register_styles(raw2, &mut colmap2, &mut styles2, &mut counter2);
    assert!(r2.is_err());

    let raw3 = vec![(String::from("hash"), String::from("zz00aa"), '0')];
    let mut colmap3 = Vec::new();
    let mut styles3 = Vec::new();
    let mut counter3 = 0usize;
    let r3 = register_styles(raw3, &mut colmap3, &mut styles3, &mut counter3);
    assert!(r3.is_err());
}

#[test]
fn style_urls_resolve_or_log() {
    let colmap = vec![(String::from("red"), 0usize), (String::from("dim"), 1usize)];
    let polys = vec![
        (
            String::from("#red"),
            vec![String::from("1,2,3")],
            Vec::new(),
        ),
        (String::from(""), Vec::new(), Vec::new()),
        (String::from("#lost"), Vec::new(), Vec::new()),
        (String::from("dim"), Vec::new(), Vec::new()),
    ];
    let mut logger = Logger::default();
    let out = resolve_geo_polygons(polys, &colmap, &mut logger);
    assert_eq!(out.len(), 2);
    assert_eq!(out[0].0, 0);
    assert_eq!(out[0].1 .0, vec![String::from("1,2,3")]);
    assert_eq!(out[1].0, 1);
    assert_eq!(logger.empty_style_id, 1);
    assert_eq!(logger.missing_style_id, 1);
}

#[test]
fn height_collector_gathers_coordinates_text() {
    let mut st = HeightState::new();
    st.step(KmlEvent::StartElement(String::from("Document"), Vec::new()));
    st.step(KmlEvent::Characters(String::from("ignored")));
    st.step(KmlEvent::StartElement(
        String::from("coordinates"),
        Vec::new(),
    ));
    st.step(KmlEvent::Characters(String::from("5.0,52.0,100.0")));
    st.step(KmlEvent::EndElement(String::from("coordinates")));
    st.step(KmlEvent::Characters(String::from("also ignored")));
    assert_eq!(st.strings, vec![String::from("5.0,52.0,100.0")]);
}

#[test]
fn geo_collector_builds_styles_and_polygons() {
    let mut st = GeoState::new();
    let ok = |r: Result<(), shapeproc::kml::KmlStepError>| assert!(r.is_ok());
    ok(st.step(KmlEvent::StartElement(
        String::from("Style"),
        vec![String::from("red")],
    )));
    ok(st.step(KmlEvent::StartElement(String::from("PolyStyle"), Vec::new())));
    ok(st.step(KmlEvent::StartElement(String::from("color"), Vec::new())));
    ok(st.step(KmlEvent::Characters(String::from("ff0000ff"))));
    ok(st.step(KmlEvent::EndElement(String::from("color"))));
    ok(st.step(KmlEvent::StartElement(String::from("outline"), Vec::new())));
    ok(st.step(KmlEvent::Characters(String::from("1"))));
    ok(st.step(KmlEvent::EndElement(String::from("outline"))));
    ok(st.step(KmlEvent::EndElement(String::from("PolyStyle"))));
    ok(st.step(KmlEvent::StartElement(String::from("Placemark"), Vec::new())));
    ok(st.step(KmlEvent::StartElement(String::from("styleUrl"), Vec::new())));
    ok(st.step(KmlEvent::Characters(String::from("#red"))));
    ok(st.step(KmlEvent::EndElement(String::from("styleUrl"))));
    ok(st.step(KmlEvent::StartElement(String::from("Polygon"), Vec::new())));
    ok(st.step(KmlEvent::StartElement(
        String::from("outerBoundaryIs"),
        Vec::new(),
    )));
    ok(st.step(KmlEvent::StartElement(
        String::from("coordinates"),
        Vec::new(),
    )));
    ok(st.step(KmlEvent::Characters(String::from("5.0,52.0,100.0"))));
    ok(st.step(KmlEvent::EndElement(String::from("coordinates"))));
    ok(st.step(KmlEvent::EndElement(String::from("outerBoundaryIs"))));
    ok(st.step(KmlEvent::EndElement(String::from("Polygon"))));
    ok(st.step(KmlEvent::EndElement(String::from("Placemark"))));

    assert_eq!(st.styles_raw.len(), 1);
    assert_eq!(st.styles_raw[0].0, "red");
    assert_eq!(st.styles_raw[0].1, "ff0000ff");
    assert_eq!(st.styles_raw[0].2, '1');
    assert_eq!(st.polygons.len(), 1);
    assert_eq!(st.polygons[0].0, "#red");
    assert_eq!(st.polygons[0].1, vec![String::from("5.0,52.0,100.0")]);
    assert!(st.polygons[0].2.is_empty());
}

#[test]
fn geo_collector_rejects_bad_style_tag() {
    let mut st = GeoState::new();
    let r = st.step(KmlEvent::StartElement(String::from("Style"), Vec::new()));
    assert!(r.is_err());
    let mut st2 = GeoState::new();
    assert!(st2
        .step(KmlEvent::StartElement(
            String::from("PolyStyle"),
            Vec::new()
        ))
        .is_ok());
    assert!(st2
        .step(KmlEvent::StartElement(String::from("outline"), Vec::new()))
        .is_ok());
    let r2 = st2.step(KmlEvent::Characters(String::from("")));
    assert!(r2.is_err());
}

#[test]
fn lines_collector_and_registration() {
    let mut st = LinesState::new();
    let ok = |r: Result<(), shapeproc::kml::KmlStepError>| assert!(r.is_ok());
    ok(st.step(KmlEvent::StartElement(
        String::from("Style"),
        vec![String::from("road")],
    )));
    ok(st.step(KmlEvent::StartElement(String::from("LineStyle"), Vec::new())));
    ok(st.step(KmlEvent::StartElement(String::from("color"), Vec::new())));
    ok(st.step(KmlEvent::Characters(String::from("ff336699"))));
    ok(st.step(KmlEvent::EndElement(String::from("color"))));
    ok(st.step(KmlEvent::StartElement(String::from("width"), Vec::new())));
    ok(st.step(KmlEvent::Characters(String::from("1.5"))));
    ok(st.step(KmlEvent::EndElement(String::from("width"))));
    ok(st.step(KmlEvent::EndElement(String::from("LineStyle"))));
    ok(st.step(KmlEvent::EndElement(String::from("Style"))));
    ok(st.step(KmlEvent::StartElement(String::from("Placemark"), Vec::new())));
    ok(st.step(KmlEvent::StartElement(String::from("styleUrl"), Vec::new())));
    ok(st.step(KmlEvent::Characters(String::from("#road"))));
    ok(st.step(KmlEvent::EndElement(String::from("styleUrl"))));
    ok(st.step(KmlEvent::StartElement(String::from("LineString"), Vec::new())));
    ok(st.step(KmlEvent::StartElement(
        String::from("coordinates"),
        Vec::new(),
    )));
    ok(st.step(KmlEvent::Characters(String::from("5.0,52.0,10.0"))));
    ok(st.step(KmlEvent::EndElement(String::from("coordinates"))));
    ok(st.step(KmlEvent::EndElement(String::from("LineString"))));
    ok(st.step(KmlEvent::EndElement(String::from("Placemark"))));

    assert_eq!(st.styles_raw.len(), 1);
    assert_eq!(st.styles_raw[0].0, "road");
    assert_eq!(st.styles_raw[0].1, "ff336699");
    assert_eq!(st.styles_raw[0].2, "1.5");
    assert_eq!(st.polygons.len(), 1);
    assert_eq!(st.polygons[0].0, "#road");
    assert_eq!(st.polygons[0].1, vec![String::from("5.0,52.0,10.0")]);

    // register: the width byte is handed in already parsed
    let raw = vec![
        (String::from("road"), String::from("ff336699"), 15u8, '-'),
        (String::from("ghost"), String::from("00000000"), 0u8, '0'),
    ];
    let mut colmap = Vec::new();
    let mut skipset = Vec::new();
    let mut styles = Vec::new();
    let mut counter = 0usize;
    let r = register_line_styles(raw, &mut colmap, &mut skipset, &mut styles, &mut counter);
    assert!(r.is_ok());
    assert_eq!(styles, vec![(15, 51, 102, 153)]);
    assert_eq!(colmap, vec![(String::from("road"), 0)]);
    assert_eq!(skipset, vec![String::from("ghost")]);
    assert_eq!(counter, 1);

    // resolve: skipped styles vanish silently, the rest keep their
    // slot or log an issue
    let mut logger = Logger::default();
    let out = resolve_line_polygons(
        vec![
            (String::from("#road"), vec![String::from("a")]),
            (String::from("#ghost"), vec![String::from("b")]),
            (String::from(""), Vec::new()),
            (String::from("#lost"), Vec::new()),
        ],
        &colmap,
        &skipset,
        &mut logger,
    );
    assert_eq!(out.len(), 1);
    assert_eq!(out[0].0, 0);
    assert_eq!(out[0].1, vec![String::from("a")]);
    assert_eq!(logger.empty_style_id, 1);
    assert_eq!(logger.missing_style_id, 1);
}

#[test]
fn tag_child_probe_tracks_nesting() {
    let parent = String::from("placemark");
    let child = String::from("name");
    let mut st = TagChildState::new();
    let ok = |r: Result<(), shapeproc::kml::KmlStepError>| assert!(r.is_ok());
    ok(st.step(
        &parent,
        &child,
        KmlEvent::StartElement(String::from("Placemark"), Vec::new()),
    ));
    ok(st.step(
        &parent,
        &child,
        KmlEvent::StartElement(String::from("name"), Vec::new()),
    ));
    ok(st.step(
        &parent,
        &child,
        KmlEvent::EndElement(String::from("Placemark")),
    ));
    assert!(!st.violated);
    ok(st.step(
        &parent,
        &child,
        KmlEvent::StartElement(String::from("Placemark"), Vec::new()),
    ));
    ok(st.step(
        &parent,
        &child,
        KmlEvent::EndElement(String::from("Placemark")),
    ));
    assert!(st.violated);
    // closing the parent without opening it is the fatal fault
    let mut st2 = TagChildState::new();
    assert!(st2
        .step(
            &parent,
            &child,
            KmlEvent::EndElement(String::from("Placemark"))
        )
        .is_err());
}

#[test]
fn nonempty_tag_probe_tracks_text() {
    let tag = String::from("name");
    let mut st = NonemptyTagState::new();
    st.step(
        &tag,
        KmlEvent::StartElement(String::from("name"), Vec::new()),
    );
    st.step(&tag, KmlEvent::Characters(String::from("hill")));
    st.step(&tag, KmlEvent::EndElement(String::from("name")));
    assert!(!st.violated);
    st.step(
        &tag,
        KmlEvent::StartElement(String::from("name"), Vec::new()),
    );
    st.step(&tag, KmlEvent::EndElement(String::from("name")));
    assert!(st.violated);
}
