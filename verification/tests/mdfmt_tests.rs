use ripple_reader::mdfmt::{
    has_layout, is_table_image, needs_probe, parse_images, rebuild_image, resolve_image_path,
    transform, Decision, ImageProbe, Layout,
};

#[test]
fn images_are_parsed_with_layout() {
    let imgs = parse_images("See ![alt](figure/x =80% center) and ![b](page://3)");
    assert_eq!(imgs.len(), 2);
    assert_eq!(imgs[0].full, "![alt](figure/x =80% center)");
    assert_eq!(imgs[0].alt, "alt");
    assert_eq!(imgs[0].url, "figure/x");
    assert_eq!(imgs[0].size, Some("80%".to_string()));
    assert_eq!(imgs[0].align, Some("center".to_string()));
    assert_eq!(imgs[0].offset, 4);
    assert_eq!(imgs[1].url, "page://3");
    assert_eq!(imgs[1].size, None);
    assert_eq!(imgs[1].offset, 37);
    assert!(has_layout(&imgs[0]));
    assert!(!has_layout(&imgs[1]));
}

#[test]
fn size_with_height() {
    let imgs = parse_images("![t](table/t1 =100%x200px left)");
    assert_eq!(imgs[0].size, Some("100%".to_string()));
    assert_eq!(imgs[0].align, Some("left".to_string()));
}

#[test]
fn rebuild_overwrites_layout() {
    let imgs = parse_images("![alt](figure/x =80% center)");
    assert_eq!(rebuild_image(&imgs[0], Some("50%"), Some("right")), "![alt](figure/x =50% right)");
    assert_eq!(rebuild_image(&imgs[0], None, None), "![alt](figure/x)");
}

#[test]
fn image_files_by_url_form() {
    assert_eq!(
        resolve_image_path("2401.1", "figure/fig1"),
        vec!["figures/2401.1/hires/fig1.png".to_string(), "figures/2401.1/fig1.jpg".to_string()]
    );
    assert_eq!(
        resolve_image_path("p", "table/t2"),
        vec!["figures/p/hires/t2.png".to_string(), "figures/p/t2.jpg".to_string()]
    );
    assert_eq!(resolve_image_path("p", "page://3"), vec!["figures/p/pages/3.png".to_string()]);
    assert!(resolve_image_path("p", "https://x/y.png").is_empty());
}

#[test]
fn tables_and_probes() {
    let imgs = parse_images("![表格 1](figure/a) ![x](figure/data_TABLE) ![y](figure/z) ![w](https://e/x.png)");
    assert!(is_table_image(&imgs[0]));
    assert!(is_table_image(&imgs[1]));
    assert!(!is_table_image(&imgs[2]));
    assert!(needs_probe(&imgs[2], false));
    assert!(!needs_probe(&imgs[3], true));
}

fn resized(width: &str, align: &str) -> ImageProbe {
    ImageProbe::Measured {
        width: 100,
        height: 100,
        layout: Some(Layout { width: width.to_string(), align: align.to_string() }),
    }
}

#[test]
fn transform_lays_out_images() {
    let md = "A ![a](figure/f1) B ![b](figure/f2) C ![c](https://e/x.png) D ![d](figure/f3 =30%) E ![e](figure/f4)";
    let probes = vec![
        resized("50%", "right"),
        resized("50%", "right"),
        ImageProbe::Missing,
        ImageProbe::Missing,
        ImageProbe::Measured { width: 900, height: 100, layout: None },
    ];
    let (out, results) = transform(md, &probes, false);
    assert_eq!(
        out,
        "A ![a](figure/f1 =50% right) B ![b](figure/f2 =50% center) C ![c](https://e/x.png) D ![d](figure/f3 =30%) E ![e](figure/f4)"
    );
    assert_eq!(results.len(), 5);
    assert!(matches!(&results[0].decision, Decision::Resized { new_align, .. } if new_align == "right"));
    assert!(matches!(&results[1].decision, Decision::Resized { new_align, .. } if new_align == "center"));
    assert!(matches!(results[2].decision, Decision::SkippedExternal));
    assert!(matches!(results[3].decision, Decision::SkippedLayout));
    assert!(matches!(results[4].decision, Decision::KeptLarge { width: 900, height: 100 }));
    assert_eq!(results[3].original, "![d](figure/f3 =30%)");
}

#[test]
fn forced_transform_replaces_layouts_and_missing_files_are_skipped() {
    let md = "![d](figure/f3 =30%)\n![e](figure/f4)";
    let probes = vec![resized("60%", "center")];
    let (out, results) = transform(md, &probes, true);
    assert_eq!(out, "![d](figure/f3 =60% center)\n![e](figure/f4)");
    assert!(matches!(results[1].decision, Decision::SkippedMissing));
}

#[test]
fn text_without_images_is_unchanged() {
    let (out, results) = transform("plain text", &vec![], false);
    assert_eq!(out, "plain text");
    assert!(results.is_empty());
}

#[test]
fn right_floats_are_not_adjacent_even_across_kept_layouts() {
    let md = "![a](figure/f1) ![k](figure/k =10%) ![b](figure/f2) ![c](figure/f3)";
    let probes = vec![
        resized("50%", "right"),
        ImageProbe::Missing,
        resized("50%", "right"),
        resized("40%", "right"),
    ];
    let (out, results) = transform(md, &probes, false);
    assert_eq!(results.len(), 4);
    assert_eq!(results[0].original, "![a](figure/f1)");
    assert_eq!(results[1].original, "![k](figure/k =10%)");
    assert!(matches!(results[1].decision, Decision::SkippedLayout));
    assert!(matches!(&results[2].decision, Decision::Resized { new_align, .. } if new_align == "center"));
    assert!(matches!(&results[3].decision, Decision::Resized { new_align, .. } if new_align == "right"));
    assert_eq!(
        out,
        "![a](figure/f1 =50% right) ![k](figure/k =10%) ![b](figure/f2 =50% center) ![c](figure/f3 =40% right)"
    );
}
