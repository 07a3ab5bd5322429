use pinto::image::{data_uri, decode_image, image_source, resolve_url, ImageSource, Resolver};

const PNG_B64: &str = "iVBORw0KGgoAAAANSUhEUgAAAAIAAAABCAYAAAD0In+KAAAADklEQVR4nGP4z8AAQg0AD3oDfnfpf5cAAAAASUVORK5CYII=";

#[test]
fn data_uris_decode() {
    assert_eq!(data_uri("data:text/plain;base64, aGVsbG8= "), Some(Some(b"hello".to_vec())));
    assert_eq!(data_uri("data:text/plain,a%20b%zz"), Some(Some(b"a b%zz".to_vec())));
    assert_eq!(data_uri("data:;base64,!!!"), Some(None));
    assert_eq!(data_uri("data:nocomma"), None);
    assert_eq!(data_uri("http://x/y.png"), None);
}

#[test]
fn png_decodes_to_rgba() {
    let src = format!("data:image/png;base64,{PNG_B64}");
    let bytes = match image_source(&src, None) {
        ImageSource::Inline(Some(b)) => b,
        other => panic!("unexpected {:?}", other),
    };
    let d = decode_image(&bytes).unwrap();
    assert_eq!((d.w, d.h), (2, 1));
    assert_eq!(d.rgba, vec![255, 0, 0, 255, 0, 0, 255, 128]);
    assert_eq!(d.rgba.len(), 4 * d.w as usize * d.h as usize);
    assert!(decode_image(b"garbage").is_none());
}

#[test]
fn host_relative_urls_map_to_files() {
    let r = Resolver::new("http://localhost:8000/".to_string(), Some("/site/public".to_string()), Some("/bench/sites".to_string()));
    assert_eq!(resolve_url("http://localhost:8000/files/a%20b.png?v=2", &r), Some("/site/public/files/a b.png".to_string()));
    assert_eq!(resolve_url("/assets/app/logo.svg", &r), Some("/bench/sites/assets/app/logo.svg".to_string()));
    assert_eq!(resolve_url("https://other/x.png", &r), None);
    let bare = Resolver::new("http://h/".to_string(), None, None);
    assert_eq!(resolve_url("/files/x.png", &bare), None);
}

#[test]
fn image_sources() {
    assert!(matches!(image_source("./local.png", None), ImageSource::File(ref f) if f == "./local.png"));
    assert!(matches!(image_source("../up.png", None), ImageSource::File(_)));
    assert!(matches!(image_source("logo.png", None), ImageSource::Missing));
    assert!(matches!(image_source("data:broken", None), ImageSource::Missing));
    let r = Resolver::new("http://h/".to_string(), Some("/pub".to_string()), None);
    assert!(matches!(image_source("http://h/files/p.png", Some(&r)), ImageSource::File(ref f) if f == "/pub/files/p.png"));
}
