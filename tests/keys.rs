use qcloud::keys::{
    collapse_slashes, download_file_name, download_url, object_key, single_upload_key,
    strip_prefix_or_keep, trim_destination,
};

#[test]
fn doubled_and_single_separator_give_same_key() {
    let dest = Some("dest".to_string());
    let k1 = object_key("a//b", "", &dest);
    let k2 = object_key("a/b", "", &dest);
    assert_eq!(k1, "dest/a/b");
    assert_eq!(k1, k2);
}

#[test]
fn directory_keys_take_the_destination_prefix() {
    let dest = Some("backup/".to_string());
    let files = ["photos/1.jpg", "photos/2.jpg", "photos/sub/3.png", "photos/sub/4.txt", "photos/5"];
    for f in files.iter() {
        let key = object_key(f, "photos", &dest);
        assert!(key.starts_with("backup/"), "{}", key);
        assert!(!key.contains("//"), "{}", key);
    }
    assert_eq!(object_key("photos/sub/3.png", "photos", &dest), "backup/sub/3.png");
    assert_eq!(object_key("photos/sub/3.png", "photos/", &dest), "backup/sub/3.png");
}

#[test]
fn key_without_destination_is_the_path() {
    assert_eq!(object_key("photos//1.jpg", "photos", &None), "photos//1.jpg");
}

#[test]
fn key_keeps_path_outside_root() {
    let dest = Some("/d/".to_string());
    assert_eq!(object_key("other/x", "photos", &dest), "d/other/x");
}

#[test]
fn collapse_reduces_every_run_of_separators() {
    assert_eq!(collapse_slashes("a//b"), "a/b");
    assert_eq!(collapse_slashes("a///b"), "a/b");
    assert_eq!(collapse_slashes("////"), "/");
    assert_eq!(collapse_slashes("x//y///z/"), "x/y/z/");
    assert_eq!(collapse_slashes(""), "");
    assert_eq!(collapse_slashes("/"), "/");
    assert_eq!(collapse_slashes("目录//文件"), "目录/文件");
}

#[test]
fn trims_one_separator_each_side() {
    assert_eq!(trim_destination("/backup/"), "backup");
    assert_eq!(trim_destination("//x//"), "/x/");
    assert_eq!(trim_destination("/"), "");
    assert_eq!(trim_destination(""), "");
}

#[test]
fn strips_root_prefix_only_when_present() {
    assert_eq!(strip_prefix_or_keep("dir/a.txt", "dir"), "/a.txt");
    assert_eq!(strip_prefix_or_keep("dir/a.txt", "other"), "dir/a.txt");
    assert_eq!(strip_prefix_or_keep("di", "dir"), "di");
}

#[test]
fn single_upload_without_key_goes_under_uploads() {
    assert_eq!(single_upload_key("video.mp4", None), "uploads/video.mp4");
    assert_eq!(single_upload_key("video.mp4", Some("k/v.mp4".to_string())), "k/v.mp4");
}

#[test]
fn download_url_follows_bucket_and_region() {
    let url = download_url("bucket-1256650966", "ap-beijing", &None, "uploads/video.mp4");
    assert_eq!(url, "https://bucket-1256650966.cos.ap-beijing.myqcloud.com/uploads/video.mp4");
}

#[test]
fn download_url_uses_custom_domain() {
    let url = download_url("b", "r", &Some("cdn.example.com".to_string()), "k");
    assert_eq!(url, "https://cdn.example.com/k");
}

#[test]
fn download_name_is_last_key_segment() {
    assert_eq!(download_file_name("a/b/c.txt", None), "c.txt");
    assert_eq!(download_file_name("c.txt", None), "c.txt");
    assert_eq!(download_file_name("a/b/", None), "");
    assert_eq!(download_file_name("a/b", Some("x/y".to_string())), "x/y");
}

#[test]
fn doubled_destination_separator_is_collapsed() {
    let dest = Some("backup//".to_string());
    assert_eq!(object_key("d/a.txt", "d", &dest), "backup/a.txt");
    assert_eq!(object_key("d///x//a.txt", "d", &Some("/b/".to_string())), "b/x/a.txt");
}
