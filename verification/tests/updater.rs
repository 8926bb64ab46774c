use smartdns::updater::{select_release, Release};

fn release(version: &str, asset: &str) -> Release {
    Release { version: version.to_string(), assets: vec![asset.to_string()] }
}

#[test]
fn test_updates_stay_on_their_variant_and_choose_archives() {
    let releases = vec![
        release("webui-v0.13.4", "smartdns-webui-test-v0.13.4.zip-sha256sum.txt"),
        release("webui-v0.13.3", "smartdns-webui-test-v0.13.3.zip"),
        release("0.13.2", "smartdns-test-v0.13.2.zip"),
    ];
    assert_eq!(select_release(&releases, "headless", "test", "zip", "0.13.1", None).unwrap().2, "0.13.2");
    assert_eq!(select_release(&releases, "webui", "test", "zip", "0.13.1", None).unwrap().2, "0.13.3");
    assert!(select_release(&releases, "headless", "test", "zip", "0.13.1", Some("0.13.3")).is_none());
    assert!(select_release(&releases, "webui", "test", "tar.gz", "0.13.1", None).is_none());
}

#[test]
fn the_newest_wanted_release_wins_and_prereleases_need_a_prerelease() {
    let releases = vec![
        release("v1.2.0", "smartdns-x86-v1.2.0.tar.gz"),
        release("v1.3.0-rc1", "smartdns-x86-v1.3.0-rc1.tar.gz"),
        release("vv1.1.0", "smartdns-x86-v1.1.0.tar.gz"),
    ];
    let chosen = select_release(&releases, "headless", "x86", "tar.gz", "1.0.0", None).unwrap();
    assert_eq!((chosen.0, chosen.1, chosen.2.as_str()), (0, 0, "1.2.0"));
    let pre = select_release(&releases, "headless", "x86", "tar.gz", "1.0.0-beta", None).unwrap();
    assert_eq!(pre.2, "1.3.0-rc1");
    let asked = select_release(&releases, "headless", "x86", "tar.gz", "1.5.0", Some("1.1.0")).unwrap();
    assert_eq!((asked.0, asked.2.as_str()), (2, "1.1.0"));
    assert!(select_release(&releases, "headless", "x86", "tar.gz", "2.0.0", None).is_none());
}
