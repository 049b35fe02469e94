use aether_threads::packages::{est_load, is_system_pkg, package_name, PackageSet};

#[test]
fn system_packages() {
    for p in [
        "com.miui.home", "com.xiaomi.x", "android.process.media", "com.android.systemui",
        "vendor.x", "com.qualcomm.x", "com.qti.x", "org.codeaurora.x", "com.st.android.nfc",
        "media.codec", "audioserver", "com.milink.service", ".qtidataservices", ".qms",
        ".cacert", ".dataservices", "com.lbe.x", "a:widgetProvider", "a:searchDataService",
        "a:coreService", "a:cognitionService", "a:bertAlgo", "a:bert", "a:privacy", "a:kit7",
        "a:services", "a:daemon",
    ] {
        assert!(is_system_pkg(p), "{}", p);
    }
}

#[test]
fn user_packages() {
    for p in ["", "com.tencent.mm", "com.mihoyo.hkrpg", "com.miui", "a:bertx", "xandroid.y", "media"] {
        assert!(!is_system_pkg(p), "{}", p);
    }
}

#[test]
fn expected_loads() {
    assert_eq!(est_load("RenderThread"), 10);
    assert_eq!(est_load("UnityGfxDeviceW"), 10);
    assert_eq!(est_load("GLThread 12"), 10);
    assert_eq!(est_load("VulkanMain"), 10);
    assert_eq!(est_load("VideoMain"), 8);
    assert_eq!(est_load("MediaCodec_loop"), 8);
    assert_eq!(est_load("AudioTrack"), 8);
    assert_eq!(est_load("Decode"), 8);
    assert_eq!(est_load("UnityMain"), 9);
    assert_eq!(est_load("GameThread"), 9);
    assert_eq!(est_load("Job.Worker 1"), 5);
    assert_eq!(est_load("Thread-7"), 5);
    assert_eq!(est_load("NetworkKit"), 3);
    assert_eq!(est_load("OkHttp"), 3);
    assert_eq!(est_load("Io"), 3);
    assert_eq!(est_load("IdlePool"), 1);
    assert_eq!(est_load("Background"), 1);
    assert_eq!(est_load("binder"), 4);
    assert_eq!(est_load(""), 4);
}

#[test]
fn packages_of_command_lines() {
    assert_eq!(package_name("com.app\0--flag\0"), "com.app");
    assert_eq!(package_name("com.app"), "com.app");
    assert_eq!(package_name("\0\0"), "");
    assert_eq!(package_name(""), "");
    assert_eq!(package_name("com.app:push service\0x"), "com.app:push service");
}

#[test]
fn sets_of_packages() {
    let mut s = PackageSet::new();
    assert!(!s.contains("a"));
    s.insert("a".to_string());
    s.insert("b".to_string());
    s.insert("a".to_string());
    assert!(s.contains("a") && s.contains("b") && !s.contains("c") && !s.contains(""));
    let copy = s.clone();
    s.insert("c".to_string());
    assert!(s.contains("c") && !copy.contains("c") && copy.contains("b"));
}
