use std::cmp::Ordering;

use dsh_desktop::npm::{
    cmp_ver, fastest, install_failed, install_not_run, install_plan, install_step, latest_url, probe_report,
    read_version, search_step, update_advice, update_result, InstallOutcome, InstallStep, SearchStep, UpdateAdvice,
    REGISTRY_NPMJS, REGISTRY_NPMMIRROR,
};

#[test]
fn the_faster_registry_wins() {
    assert_eq!(fastest(Some(10), Some(20)), Some("npmjs".to_string()));
    assert_eq!(fastest(Some(20), Some(20)), Some("npmjs".to_string()));
    assert_eq!(fastest(Some(21), Some(20)), Some("npmmirror".to_string()));
    assert_eq!(fastest(None, Some(9)), Some("npmmirror".to_string()));
    assert_eq!(fastest(Some(9), None), Some("npmjs".to_string()));
    assert_eq!(fastest(None, None), None);
}

#[test]
fn the_probe_is_reported_as_json() {
    assert_eq!(probe_report(Some(120), None).to_text(), "{\"fastest\":\"npmjs\",\"npmjsMs\":120,\"npmmirrorMs\":null}");
    assert_eq!(probe_report(None, None).to_text(), "{\"fastest\":null,\"npmjsMs\":null,\"npmmirrorMs\":null}");
    assert_eq!(latest_url(REGISTRY_NPMJS), "https://registry.npmjs.org/@deepseek-ai/dsh/latest");
}

#[test]
fn only_known_registries_reach_the_command_line() {
    let mirror = install_plan(&Some(REGISTRY_NPMMIRROR.to_string()));
    assert_eq!(mirror.command, "npm install -g @deepseek-ai/dsh --registry=https://registry.npmmirror.com");
    assert_eq!(mirror.label, "npm 全局安装中(国内镜像,约 1-3 分钟)");
    let official = install_plan(&Some(REGISTRY_NPMJS.to_string()));
    assert_eq!(official.command, "npm install -g @deepseek-ai/dsh --registry=https://registry.npmjs.org");
    assert_eq!(official.label, "npm 全局安装中(官方源,约 1-3 分钟)");
    for odd in [None, Some("https://evil & calc".to_string())] {
        let plain = install_plan(&odd);
        assert_eq!(plain.command, "npm install -g @deepseek-ai/dsh");
        assert_eq!(plain.label, "npm 全局安装中(约 1-3 分钟)");
    }
}

#[test]
fn a_failed_installation_is_explained() {
    assert_eq!(
        install_failed(Some(-4058), "C:\\L"),
        "npm 全局安装失败(退出码 -4058)。详见日志 C:\\L\\dsh.log,或改用「下载并启动(npx)」/手动路径。"
    );
    assert!(install_failed(None, "").starts_with("npm 全局安装失败(退出码 -1)"));
    assert_eq!(install_not_run("gone"), "无法运行 npm(需要已安装 Node.js):gone");
}

#[test]
fn only_a_successful_installation_is_started() {
    let ran = |success, code| InstallOutcome::Ran { success, code };
    assert!(matches!(install_step(&ran(true, Some(0)), "L"), InstallStep::Retry));
    match install_step(&ran(false, Some(1)), "L") {
        InstallStep::Report { message } => assert_eq!(message, install_failed(Some(1), "L")),
        _ => panic!("started"),
    }
    match install_step(&ran(false, None), "L") {
        InstallStep::Report { message } => assert_eq!(message, install_failed(None, "L")),
        _ => panic!("started"),
    }
    match install_step(&InstallOutcome::NotRun { error: "gone".to_string() }, "L") {
        InstallStep::Report { message } => assert_eq!(message, install_not_run("gone")),
        _ => panic!("started"),
    }
}

#[test]
fn the_official_registry_is_asked_first() {
    let named = |v: &str| Some(format!("{{\"version\":\"{}\"}}", v));
    let asked = |answers: Vec<Option<String>>| match search_step(&answers) {
        SearchStep::Ask { url } => url,
        SearchStep::Done { .. } => panic!("done"),
    };
    let done = |answers: Vec<Option<String>>| match search_step(&answers) {
        SearchStep::Ask { .. } => panic!("not done"),
        SearchStep::Done { version } => version,
    };
    assert_eq!(asked(vec![]), "https://registry.npmjs.org/@deepseek-ai/dsh/latest");
    for nothing in [None, Some("oops".to_string()), Some("{\"version\":1}".to_string())] {
        assert_eq!(asked(vec![nothing.clone()]), "https://registry.npmmirror.com/@deepseek-ai/dsh/latest");
        assert_eq!(done(vec![nothing.clone(), named("2")]), Some("2".to_string()));
        assert_eq!(done(vec![nothing, None]), None);
    }
    assert_eq!(done(vec![named("1")]), Some("1".to_string()));
}

#[test]
fn the_version_is_read_from_the_metadata() {
    assert_eq!(read_version("{\"name\":\"x\",\"version\":\"0.1.2-rc3\"}"), Some("0.1.2-rc3".to_string()));
    assert_eq!(read_version("{\"version\":1}"), None);
    assert_eq!(read_version("oops"), None);
}

#[test]
fn versions_are_ordered_by_number_and_candidate() {
    assert_eq!(cmp_ver("1.10.0", "1.9.9"), Ordering::Greater);
    assert_eq!(cmp_ver("1.0", "1.0.0"), Ordering::Equal);
    assert_eq!(cmp_ver("1.0.0-rc8", "1.0.0-rc10"), Ordering::Less);
    assert_eq!(cmp_ver("1.0.0-rc 9", "1.0.0-rc8"), Ordering::Greater);
    assert_eq!(cmp_ver("0.1.0-rc.9", "0.1.0-rc.8"), Ordering::Greater);
    assert_eq!(cmp_ver("0.1.0-rc.10", "0.1.0-rc9"), Ordering::Greater);
    assert_eq!(cmp_ver("0.1.0-rc.8", "0.1.0-rc8"), Ordering::Equal);
    assert_eq!(cmp_ver("0.1.0-beta", "0.1.0-rc1"), Ordering::Less);
    assert_eq!(cmp_ver("0.1.0-beta", "0.1.0-alpha.1"), Ordering::Equal);
    assert_eq!(cmp_ver("1.x.2", "1.0.1"), Ordering::Greater);
    assert_eq!(cmp_ver("", "0"), Ordering::Equal);
}

#[test]
fn a_release_is_newer_than_its_candidates() {
    assert_eq!(cmp_ver("1.0.0", "1.0.0-rc1"), Ordering::Greater);
    assert_eq!(cmp_ver("1.0.0-rc.4294967295", "1.0.0"), Ordering::Less);
    assert_eq!(cmp_ver("1.0.0-beta", "1.0.0"), Ordering::Less);
    assert_eq!(cmp_ver("1.0.1-rc1", "1.0.0"), Ordering::Greater);
}

#[test]
fn the_order_of_versions_is_strict() {
    let list = ["0.1", "0.1.1-beta", "0.1.1-rc1", "0.1.1-rc.2", "0.1.1", "0.2", "1", "1.0.1"];
    for i in 0..list.len() {
        for j in 0..list.len() {
            assert_eq!(cmp_ver(list[i], list[j]), i.cmp(&j), "{} {}", list[i], list[j]);
        }
    }
}

#[test]
fn an_update_is_offered_when_there_is_one() {
    match update_advice("0.1.0", &Some("0.2.0".to_string())) {
        UpdateAdvice::Offer { question, command } => {
            assert_eq!(
                question,
                "发现新版本 0.2.0(当前 0.1.0)\n\n是否立即更新?\n(将执行: npm install -g @deepseek-ai/dsh@0.2.0)"
            );
            assert_eq!(command, "npm install -g @deepseek-ai/dsh@0.2.0");
        }
        _ => panic!("not asked"),
    }
    let told = |current: &str, latest: Option<&str>| match update_advice(current, &latest.map(|s| s.to_string())) {
        UpdateAdvice::Tell(notice) => notice,
        _ => panic!("asked"),
    };
    assert!(matches!(
        update_advice("1.0.0-rc1", &Some("1.0.0".to_string())),
        UpdateAdvice::Offer { .. }
    ));
    assert_eq!(told("1.0", Some("1.0")), "已是最新版本: 1.0");
    assert_eq!(told("1.0", None), "无法获取最新版本(网络不可达或 registry 失败)。");
    assert_eq!(told(" \n", Some("1.0")), "无法获取当前 dsh 版本(请确认 dsh 命令可用)。");
}

#[test]
fn the_result_of_an_update_is_told() {
    assert_eq!(update_result(true, "npm i"), "更新成功。请重启 DSH(dsh web)使新版本生效。");
    assert_eq!(update_result(false, "npm i"), "更新失败。请手动执行:\nnpm i");
}
