use koharu::export::archive::{
    check_project, pages_to_export, ArchiveAction, ArchiveEvent, ArchiveExport, ExportEnd,
    PageAction, PageEvent, PageExport, PreparedPage,
};
use koharu::export::images::{
    encode, encode_png, preview_of, thumbnail, thumbnail_of, EncodedPage, ExportConfig, RgbaImage,
    Shrunk, ThumbnailFault, PREVIEW_EDGE, THUMBNAIL_EDGE,
};
use koharu::export::names::{
    archive_name, member_name, page_file, page_stem, sanitize_filename, ArchiveImageFormat,
    ExportFormat,
};
use koharu::ids::{EntityId, ProjectId};
use koharu::processing::JobState;

fn filled(width: u32, height: u32, pixel: [u8; 4]) -> RgbaImage {
    let mut pixels = Vec::new();
    for _ in 0..width * height {
        pixels.extend_from_slice(&pixel);
    }
    RgbaImage {
        width,
        height,
        pixels,
    }
}

fn encoded(image: &RgbaImage, format: ArchiveImageFormat, config: ExportConfig) -> Vec<u8> {
    match encode(image, format, config).unwrap() {
        EncodedPage::File(bytes) => bytes,
        EncodedPage::Webp { quality } => {
            let encoder = webp::Encoder::from_rgba(&image.pixels, image.width, image.height);
            encoder.encode(f32::from(quality)).to_vec()
        }
    }
}

#[test]
fn encodings_decode_and_jpeg_has_white_matte() {
    for format in [
        ArchiveImageFormat::Png,
        ArchiveImageFormat::Jpeg,
        ArchiveImageFormat::Webp,
    ] {
        let bytes = encoded(&filled(8, 8, [0, 0, 0, 0]), format, ExportConfig::default());
        if matches!(format, ArchiveImageFormat::Webp) {
            let decoded = webp::Decoder::new(&bytes).decode().unwrap();
            assert_eq!((decoded.width(), decoded.height()), (8, 8));
            continue;
        }
        let decoded = image::load_from_memory(&bytes).unwrap().to_rgba8();
        assert_eq!(decoded.dimensions(), (8, 8));
        if matches!(format, ArchiveImageFormat::Jpeg) {
            assert!(decoded
                .pixels()
                .all(|pixel| pixel[0] >= 254 && pixel[1] >= 254 && pixel[2] >= 254));
        }
    }
    let bytes = encoded(
        &filled(8, 8, [255, 0, 0, 128]),
        ArchiveImageFormat::Jpeg,
        ExportConfig::default(),
    );
    let pixel = image::load_from_memory(&bytes)
        .unwrap()
        .to_rgb8()
        .get_pixel(0, 0)
        .0;
    assert!(pixel[0] >= 250 && (123..=131).contains(&pixel[1]) && (123..=131).contains(&pixel[2]));
}

#[test]
fn png_pages_keep_every_pixel() {
    let mut image = filled(2, 2, [10, 20, 30, 40]);
    image.pixels[4] = 99;
    let bytes = encode_png(&image).unwrap();
    let decoded = image::load_from_memory(&bytes).unwrap().to_rgba8();
    assert_eq!(decoded.into_raw(), image.pixels);
}

#[test]
fn settings_defaults_roundtrip_and_boundaries() {
    let defaults = ExportConfig::default();
    assert_eq!((defaults.jpeg_quality, defaults.webp_quality), (90, 85));
    assert_eq!(defaults.normalized(), defaults);
    let config = ExportConfig {
        jpeg_quality: 0,
        webp_quality: 255,
    }
    .normalized();
    assert_eq!((config.jpeg_quality, config.webp_quality), (1, 100));
    for quality in [0, 1, 100, 255] {
        for format in [ArchiveImageFormat::Jpeg, ArchiveImageFormat::Webp] {
            assert!(encode(
                &filled(1, 1, [0, 0, 0, 0]),
                format,
                ExportConfig {
                    jpeg_quality: quality,
                    webp_quality: quality
                }
            )
            .is_ok());
        }
    }
}

#[test]
fn thumbnails_fit_their_square() {
    let file = encode_png(&filled(256, 64, [200, 100, 50, 255])).unwrap();
    let small = thumbnail(&file).unwrap();
    assert_eq!((small.width, small.height), (THUMBNAIL_EDGE, 32));
    assert_eq!(&small.pixels[0..4], &[200, 100, 50, 255]);
    assert_eq!(
        thumbnail(&vec![1, 2, 3]).unwrap_err(),
        ThumbnailFault::Undecodable
    );
    let empty = Shrunk {
        source_width: 0,
        source_height: 3,
        image: filled(1, 1, [0, 0, 0, 0]),
    };
    assert_eq!(
        thumbnail_of(Some(empty)).unwrap_err(),
        ThumbnailFault::Empty
    );
}

#[test]
fn sanitize_filename_replaces_path_and_reserved_characters() {
    assert_eq!(sanitize_filename("ch1/page:2"), "ch1_page_2");
    assert_eq!(sanitize_filename(r#"a<b>c"d|e?f*g\h"#), "a_b_c_d_e_f_g_h");
    assert_eq!(sanitize_filename("plain name"), "plain name");
}

#[test]
fn archive_members_follow_the_comic_archive_convention() {
    let cbz = ExportFormat::Cbz;
    assert_eq!(page_stem(cbz, 0, 20, "001.jpg"), "P001");
    assert_eq!(page_stem(cbz, 9, 20, "010.jpg"), "P010");
    assert_eq!(page_stem(cbz, 1, 20, "pages/page2.png"), "P002");
    assert_eq!(page_stem(cbz, 2, 20, ""), "P003");
}

#[test]
fn archive_numbering_widens_for_large_projects() {
    let cbz = ExportFormat::Cbz;
    assert_eq!(page_stem(cbz, 0, 999, "a"), "P001");
    assert_eq!(page_stem(cbz, 0, 1000, "a"), "P0001");
    assert_eq!(page_stem(cbz, 1233, 1500, "a"), "P1234");
}

#[test]
fn loose_files_keep_the_page_label() {
    assert_eq!(
        page_stem(ExportFormat::Png, 0, 3, "cover.png"),
        "0001_cover",
        "the label is what identifies a loose file on disk",
    );
    assert_eq!(
        page_stem(ExportFormat::Psd, 1, 3, "ch1/page.psd"),
        "0002_ch1_page"
    );
    assert_eq!(page_stem(ExportFormat::Png, 2, 3, "   "), "0003_page");
}

#[test]
fn archives_preserve_order_and_widen_names() {
    for count in [1, 3, 1000] {
        let names: Vec<String> = (0..count)
            .map(|index| member_name(index, count, ArchiveImageFormat::Png))
            .collect();
        let mut sorted = names.clone();
        sorted.sort();
        assert_eq!(names, sorted);
    }
    assert_eq!(member_name(0, 20, ArchiveImageFormat::Webp), "P001.webp");
    assert_eq!(page_file(ExportFormat::Psd, "0001_cover"), "0001_cover.psd");
    assert!(archive_name("My/Comic").ends_with(".cbz"));
    assert!(!archive_name("My/Comic").contains('/'));
}

#[test]
fn exports_need_pages_and_their_project() {
    let pages = pages_to_export(vec![], vec![EntityId(1), EntityId(2)]).unwrap();
    assert_eq!(pages, vec![EntityId(1), EntityId(2)]);
    assert_eq!(
        pages_to_export(vec![EntityId(2)], vec![EntityId(1), EntityId(2)]).unwrap(),
        vec![EntityId(2)]
    );
    assert!(pages_to_export(vec![], vec![]).is_err());
    assert!(check_project(ProjectId(1), Some(ProjectId(1))).is_ok());
    assert!(check_project(ProjectId(1), Some(ProjectId(2))).is_err());
    assert!(check_project(ProjectId(1), None).is_err());
}

fn prepared(index: usize, stopped: bool) -> ArchiveEvent {
    ArchiveEvent::Prepared {
        result: Ok(Some(PreparedPage {
            index,
            page: EntityId(index as u128),
        })),
        stopped,
    }
}

fn archive_end(action: ArchiveAction) -> (JobState, Option<String>) {
    match action {
        ArchiveAction::End(ExportEnd { state, error, .. }) => (state, error),
        _ => panic!("ended"),
    }
}

#[test]
fn an_archive_is_placed_once_it_is_complete() {
    let mut export = ArchiveExport::new(2, ArchiveImageFormat::Jpeg);
    assert!(matches!(
        export.next(ArchiveEvent::Created { result: Ok(()) }),
        ArchiveAction::Prepare
    ));
    for index in 0..2 {
        match export.next(prepared(index, false)) {
            ArchiveAction::Store(name) => assert_eq!(name, format!("P00{}.jpg", index + 1)),
            _ => panic!("stored"),
        }
        assert_eq!(export.run.page, Some(EntityId(index as u128)));
        assert!(matches!(
            export.next(ArchiveEvent::Stored {
                result: Ok(()),
                stopped: false
            }),
            ArchiveAction::Prepare
        ));
    }
    assert_eq!((export.run.completed, export.run.total), (2, 2));
    assert!(matches!(
        export.next(ArchiveEvent::NoMorePages),
        ArchiveAction::Close
    ));
    assert!(matches!(
        export.next(ArchiveEvent::Closed {
            result: Ok(()),
            stopped: false
        }),
        ArchiveAction::Place
    ));
    let end = export.next(ArchiveEvent::Placed { result: Ok(()) });
    assert_eq!(archive_end(end), (JobState::Finished, None));
}

#[test]
fn a_stopped_archive_is_not_placed() {
    let stopped = (JobState::Stopped, None);
    let mut export = ArchiveExport::new(2, ArchiveImageFormat::Png);
    assert_eq!(archive_end(export.next(prepared(0, true))), stopped);
    let seen = ArchiveEvent::Prepared {
        result: Ok(None),
        stopped: false,
    };
    assert_eq!(archive_end(export.next(seen)), stopped);
    let stored = ArchiveEvent::Stored {
        result: Ok(()),
        stopped: true,
    };
    assert_eq!(archive_end(export.next(stored)), stopped);
    assert_eq!(export.run.completed, 0);
    let closed = ArchiveEvent::Closed {
        result: Ok(()),
        stopped: true,
    };
    assert_eq!(archive_end(export.next(closed)), stopped);
    let full = ArchiveEvent::Stored {
        result: Err("full".to_owned()),
        stopped: true,
    };
    assert_eq!(
        archive_end(export.next(full)),
        (JobState::Failed, Some("full".to_owned()))
    );
}

fn page_end(action: PageAction) -> (JobState, Option<String>, bool) {
    match action {
        PageAction::End(ExportEnd {
            state,
            error,
            remove_file,
        }) => (state, error, remove_file),
        _ => panic!("ended"),
    }
}

fn rendered(result: Result<EntityId, String>, stopped: bool) -> PageEvent {
    PageEvent::Rendered { result, stopped }
}

#[test]
fn pages_are_written_one_by_one() {
    let mut export = PageExport::new(1, false);
    assert!(matches!(export.next(PageEvent::Begin), PageAction::Next));
    assert!(matches!(
        export.next(rendered(Ok(EntityId(3)), false)),
        PageAction::Write
    ));
    assert!(matches!(
        export.next(PageEvent::Written {
            page: EntityId(3),
            result: Ok(())
        }),
        PageAction::Next
    ));
    assert_eq!(export.run.page, Some(EntityId(3)));
    assert_eq!(
        page_end(export.next(PageEvent::NoMorePages)),
        (JobState::Finished, None, false)
    );
    let mut export = PageExport::new(1, false);
    assert_eq!(
        page_end(export.next(rendered(Err("broken".to_owned()), true))),
        (JobState::Stopped, None, false)
    );
    assert_eq!(
        page_end(export.next(rendered(Err("broken".to_owned()), false))),
        (JobState::Failed, Some("broken".to_owned()), false)
    );
}

#[test]
fn a_partial_archive_of_pages_is_removed() {
    let ended = |result| PageEvent::ArchiveEnded { result };
    let mut export = PageExport::new(2, true);
    assert!(matches!(
        export.next(PageEvent::NoMorePages),
        PageAction::EndArchive
    ));
    assert_eq!(
        page_end(export.next(ended(Ok(())))),
        (JobState::Finished, None, false)
    );
    let mut export = PageExport::new(2, true);
    assert!(matches!(
        export.next(rendered(Ok(EntityId(1)), true)),
        PageAction::EndArchive
    ));
    assert_eq!(
        page_end(export.next(ended(Ok(())))),
        (JobState::Stopped, None, true)
    );
    let mut export = PageExport::new(2, true);
    assert!(matches!(
        export.next(PageEvent::Written {
            page: EntityId(1),
            result: Err("gone".to_owned())
        }),
        PageAction::EndArchive
    ));
    assert_eq!(
        page_end(export.next(ended(Err("disk".to_owned())))),
        (JobState::Failed, Some("gone".to_owned()), true)
    );
    let mut export = PageExport::new(2, true);
    assert!(matches!(
        export.next(PageEvent::NoMorePages),
        PageAction::EndArchive
    ));
    assert_eq!(
        page_end(export.next(ended(Err("disk".to_owned())))),
        (JobState::Failed, Some("disk".to_owned()), true)
    );
    let mut export = PageExport::new(2, true);
    assert!(matches!(
        export.next(rendered(Err("broken".to_owned()), false)),
        PageAction::EndArchive
    ));
    let lost = PageEvent::ArchiveLost {
        message: "lost".to_owned(),
    };
    assert_eq!(
        page_end(export.next(lost)),
        (JobState::Failed, Some("lost".to_owned()), false)
    );
}

#[test]
fn pages_without_pixels_are_not_encoded() {
    let config = ExportConfig::default();
    for (width, height) in [(0, 1), (1, 0)] {
        let image = RgbaImage {
            width,
            height,
            pixels: Vec::new(),
        };
        assert!(encode(&image, ArchiveImageFormat::Png, config).is_err());
        assert!(encode(&image, ArchiveImageFormat::Jpeg, config).is_err());
    }
    let long = RgbaImage {
        width: 65_536,
        height: 1,
        pixels: vec![255; 65_536 * 4],
    };
    assert!(encode(&long, ArchiveImageFormat::Jpeg, config).is_err());
    assert!(encode(&long, ArchiveImageFormat::Png, config).is_ok());
}

#[test]
fn previews_fill_the_square() {
    let wide = preview_of(&filled(8, 2, [10, 20, 30, 255]));
    assert_eq!((wide.width, wide.height), (1024, 256));
    assert_eq!(wide.pixels.len(), 1024 * 256 * 4);
    assert_eq!(wide.pixels[..4], [10, 20, 30, 255]);
    let small = preview_of(&filled(1, 2, [10, 20, 30, 255]));
    assert_eq!((small.width, small.height), (512, PREVIEW_EDGE));
}
