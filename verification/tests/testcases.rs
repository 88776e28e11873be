use nix_editor::read::{getarrvals, getwithvalue, readvalue, ReadError};
use nix_editor::write::{addtoarr, deref, rmarr};

const CONFIG: &str = r#"# Edit this configuration file to define what should be installed on
# your system.  Help is available in the configuration.nix(5) man page.
{ config, pkgs, ... }:

{
  imports =
    [ # Include the results of the hardware scan.
      ./hardware-configuration.nix
    ];

  # Bootloader.
  boot.loader.systemd-boot.enable = true;
  boot.loader.efi.canTouchEfiVariables = true;

  networking.hostName = "nixos";
  time.timeZone = "Europe/Berlin";

  services.xserver.enable = true;

  programs.gnupg.agent = {
    enable = true;
    enableSSHSupport = true;
  };

  environment.systemPackages = with pkgs; [
    vim
    wget
    firefox
  ];

  services.openssh.enable = true;

  system.stateVersion = "22.05";
}
"#;

#[test]
fn read_val1() {
    let config = CONFIG.to_string();
    let out = match readvalue(&config, "system.stateVersion") {
        Ok(s) => s,
        Err(_) => panic!("Failed to read value"),
    };
    assert!(out == "\"22.05\"")
}

#[test]
fn read_val2() {
    let config = CONFIG.to_string();
    let out = match readvalue(&config, "programs.gnupg.agent.enable") {
        Ok(s) => s,
        Err(_) => panic!("Failed to read value"),
    };
    assert!(out == "true")
}

#[test]
fn read_val3() {
    let config = CONFIG.to_string();
    let out = match readvalue(&config, "this.does.not.exist") {
        Ok(_) => panic!("Read value that does not exist"),
        Err(e) => e,
    };
    match out {
        ReadError::NoAttr => (),
        _ => panic!("Incorrect error type"),
    }
}

#[test]
fn readarr_val1() {
    let config = CONFIG.to_string();
    let out = match getarrvals(&config, "imports") {
        Ok(s) => s,
        Err(_) => panic!("Failed to read value"),
    };
    assert!(out == vec!["./hardware-configuration.nix"])
}

#[test]
fn readarr_val2() {
    let config = CONFIG.to_string();
    let out = match getarrvals(&config, "environment.systemPackages") {
        Ok(s) => s,
        Err(_) => panic!("Failed to read value"),
    };
    assert!(out == vec!["vim", "wget", "firefox"])
}

#[test]
fn write_val1() {
    let config = CONFIG.to_string();
    let out = match nix_editor::write::write(&config, "boot.loader.systemd-boot.enable", "false") {
        Ok(s) => s,
        Err(_) => panic!("Failed to write to file"),
    };
    let r = match readvalue(&out, "boot.loader.systemd-boot.enable") {
        Ok(s) => s,
        Err(_) => panic!("Failed to read value"),
    };
    assert!(r == "false")
}

#[test]
fn write_val2() {
    let config = CONFIG.to_string();
    let out = match nix_editor::write::write(&config, "this.doesnot.exist", "\"test\"") {
        Ok(s) => s,
        Err(_) => panic!("Failed to write to file"),
    };
    let r = match readvalue(&out, "this.doesnot.exist") {
        Ok(s) => s,
        Err(_) => panic!("Failed to read value"),
    };
    assert!(r == "\"test\"")
}

#[test]
fn write_val3() {
    let config = CONFIG.to_string();
    let out = match nix_editor::write::write(&config, "programs.gnupg.agent.enableExtraSocket", "true") {
        Ok(s) => s,
        Err(_) => panic!("Failed to write to file"),
    };
    println!("{}", out);
    let r = match readvalue(&out, "programs.gnupg.agent.enableExtraSocket") {
        Ok(s) => s,
        Err(_) => panic!("Failed to read value"),
    };
    assert!(r == "true")
}

#[test]
fn write_arr1() {
    let config = CONFIG.to_string();
    let out = match addtoarr(
        &config,
        "environment.systemPackages",
        vec!["nano".to_string(), "unzip".to_string()],
    ) {
        Ok(s) => s,
        Err(_) => panic!("Failed to write to file"),
    };
    println!("{}", out);
    let r = match getarrvals(&out, "environment.systemPackages") {
        Ok(s) => s,
        Err(_) => panic!("Failed to read value"),
    };
    assert!(r == vec!["vim", "wget", "firefox", "nano", "unzip"])
}

#[test]
fn write_arr2() {
    let config = CONFIG.to_string();
    let out = match addtoarr(&config, "test.arr", vec!["one".to_string(), "two".to_string()]) {
        Ok(s) => s,
        Err(_) => panic!("Failed to write to file"),
    };
    println!("{}", out);
    let out2 = match addtoarr(&out, "test.arr", vec!["three".to_string(), "four".to_string()]) {
        Ok(s) => s,
        Err(_) => panic!("Failed to write to file"),
    };
    println!("{}", out2);
    let out3 = match rmarr(&out2, "test.arr", vec!["four".to_string(), "two".to_string()]) {
        Ok(s) => s,
        Err(_) => panic!("Failed to write to file"),
    };
    println!("{}", out3);
    let r = match getarrvals(&out3, "test.arr") {
        Ok(s) => s,
        Err(_) => panic!("Failed to read value"),
    };
    assert!(r == vec!["one", "three"])
}

#[test]
fn deref_val1() {
    let config = CONFIG.to_string();
    let out = match deref(&config, "programs.gnupg.agent.enableSSHSupport") {
        Ok(s) => s,
        Err(_) => panic!("Failed to write to file"),
    };
    println!("{}", out);
    let r = match readvalue(&out, "programs.gnupg.agent.enableSSHSupport") {
        Ok(_) => panic!("Read value that does not exist"),
        Err(e) => e,
    };
    match r {
        ReadError::NoAttr => (),
        _ => panic!("Incorrect error for no attribute"),
    }
}

#[test]
fn get_with1() {
    let config = CONFIG.to_string();
    let out = match getwithvalue(&config, "environment.systemPackages") {
        Ok(s) => s,
        Err(_) => panic!("Failed to write to file"),
    };
    assert!(out == vec!["pkgs"])
}

#[test]
fn get_with2() {
    let config = CONFIG.to_string();
    let out1 = match nix_editor::write::write(&config, "test2.test", "with x; with y; test") {
        Ok(s) => s,
        Err(_) => panic!("Failed to write to file"),
    };
    println!("{}", out1);
    let out2 = match getwithvalue(&out1, "test2.test") {
        Ok(s) => s,
        Err(_) => panic!("Failed to write to file"),
    };
    assert!(out2 == vec!["x", "y"])
}

#[test]
fn read_collect() {
    let config = CONFIG.to_string();
    let mut map = nix_editor::parse::AttrMap::new();
    let root = nix_editor::syntax::parse_tree(&config).unwrap();
    let base = nix_editor::parse::getcfgbase(&root).unwrap();
    let configbase = root.get(&base, 0);
    nix_editor::parse::collectattrs(configbase, &mut map);

    assert!(map.len() == 11);
    println!("{:?}", map.get("imports").unwrap());
    assert!(map.get("imports").unwrap() == "[ # Include the results of the hardware scan.\n      ./hardware-configuration.nix\n    ]");
    assert!(map.get("boot.loader.systemd-boot.enable").unwrap() == "true");
    assert!(map.get("boot.loader.efi.canTouchEfiVariables").unwrap() == "true");
    assert!(map.get("programs.gnupg.agent.enable").unwrap() == "true");
    assert!(map.get("programs.gnupg.agent.enableSSHSupport").unwrap() == "true");
    assert!(map.get("system.stateVersion").unwrap() == "\"22.05\"");
}

#[test]
fn main_test() {
    let config = CONFIG.to_string();
    let mut map = nix_editor::parse::AttrMap::new();
    let root = nix_editor::syntax::parse_tree(&config).unwrap();
    let base = nix_editor::parse::getcfgbase(&root).unwrap();
    let configbase = root.get(&base, 0);
    nix_editor::parse::collectattrs(configbase, &mut map);

    assert!(map.len() == 11);
    println!("{:?}", map.get("imports").unwrap());
    assert!(map.get("imports").unwrap() == "[ # Include the results of the hardware scan.\n      ./hardware-configuration.nix\n    ]");
    assert!(map.get("boot.loader.systemd-boot.enable").unwrap() == "true");
    assert!(map.get("boot.loader.efi.canTouchEfiVariables").unwrap() == "true");
    assert!(map.get("programs.gnupg.agent.enable").unwrap() == "true");
    assert!(map.get("programs.gnupg.agent.enableSSHSupport").unwrap() == "true");
    assert!(map.get("system.stateVersion").unwrap() == "\"22.05\"");
}
