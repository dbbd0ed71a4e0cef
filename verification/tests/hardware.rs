use koharu::hardware::kfd::{
    probe, read_properties, select_nodes, Backend, DeviceType, TopologyEntry,
};
use koharu::hardware::packages::{
    Build, Component, Hardware, NoRocmDevice, Platform, RuntimePackage,
};
use koharu::hardware::targets::GfxTarget;

#[test]
fn architectures_are_known_by_version_and_name() {
    assert_eq!(GfxTarget::from_version(110_501), Some(GfxTarget::Gfx1151));
    assert_eq!(GfxTarget::from_version(1), None);
    assert_eq!(GfxTarget::from_name("gfx90a"), Some(GfxTarget::Gfx90a));
    assert_eq!(GfxTarget::from_name("gfx1"), None);
    assert_eq!(GfxTarget::Gfx90a.version(), 90_010);
    assert_eq!(GfxTarget::all().len(), 33);
    assert!(GfxTarget::Gfx1103.integrated());
    assert!(GfxTarget::Gfx1103.packaged_for_windows());
    assert!(!GfxTarget::Gfx1103.packaged_for_linux());
    assert!(!GfxTarget::Gfx1250.packaged_for_linux());
    for target in GfxTarget::all() {
        assert_eq!(GfxTarget::from_version(target.version()), Some(target));
        assert_eq!(GfxTarget::from_name(target.name()), Some(target));
    }
}

fn directory(name: &str) -> TopologyEntry {
    TopologyEntry {
        name: Some(name.to_owned()),
        is_directory: true,
    }
}

#[test]
fn nodes_are_read_by_the_letters_of_their_names() {
    let nodes = select_nodes(vec![
        directory("2"),
        directory("10"),
        directory("x1"),
        directory(""),
        TopologyEntry {
            name: Some("3".to_owned()),
            is_directory: false,
        },
        TopologyEntry {
            name: None,
            is_directory: true,
        },
        directory("1"),
    ]);
    let names: Vec<String> = nodes.into_iter().map(|node| node.0).collect();
    assert_eq!(names, vec!["1", "10", "2"]);
}

#[test]
fn properties_are_read_line_by_line() {
    let properties = read_properties(
        "cpu_cores_count 0\nsimd_count 4\r\nsimd_count 80\ngfx_target_version 110000 extra\n\
         gfx_target_version 110001\ngfx_target_version many",
    );
    assert_eq!(properties.simd_count, 80);
    assert_eq!(properties.version, 110_001);
}

#[test]
fn devices_are_numbered_as_they_are_found() {
    let text = |simd: u32, version: u32| {
        Some(format!(
            "simd_count {simd}\ngfx_target_version {version}\n"
        ))
    };
    let devices = probe(&vec![
        text(0, 0),
        text(80, 110_000),
        None,
        text(80, 999_999),
        text(16, 110_003),
    ]);
    assert_eq!(devices.len(), 2);
    assert_eq!(devices[0].name, "ROCm0");
    assert_eq!(devices[0].description, "gfx1100");
    assert_eq!(devices[0].device_type, DeviceType::Gpu);
    assert_eq!(devices[0].backend, Backend::Rocm);
    assert_eq!(devices[1].name, "ROCm1");
    assert_eq!(devices[1].index, 1);
    assert_eq!(devices[1].device_type, DeviceType::IntegratedGpu);
    assert_eq!(devices[1].target, Some(GfxTarget::Gfx1103));
}

fn hardware(cuda: bool, rocm: bool, vulkan: bool, metal: bool) -> Hardware {
    Hardware {
        cuda,
        rocm,
        vulkan,
        metal,
        rocm_target: if rocm { Some(GfxTarget::Gfx1100) } else { None },
    }
}

const LINUX: Platform = Platform {
    windows: false,
    linux_arm: false,
};
const ARM: Platform = Platform {
    windows: false,
    linux_arm: true,
};
const WINDOWS: Platform = Platform {
    windows: true,
    linux_arm: false,
};

#[test]
fn the_first_supported_build_is_taken() {
    let all = hardware(true, true, true, true);
    assert_eq!(Build::discover(&all, LINUX), Some(Build::LinuxCuda));
    assert_eq!(Build::discover(&all, WINDOWS), Some(Build::WindowsCuda));
    let rocm = hardware(false, true, true, false);
    assert_eq!(Build::discover(&rocm, LINUX), Some(Build::LinuxHip));
    let vulkan = hardware(false, false, true, false);
    assert_eq!(
        Build::discover(&vulkan, WINDOWS),
        Some(Build::WindowsVulkan)
    );
    let metal = hardware(false, false, false, true);
    assert_eq!(Build::discover(&metal, LINUX), Some(Build::MacosMetal));
    assert_eq!(
        Build::discover(&hardware(false, false, false, false), LINUX),
        None
    );
}

#[test]
fn builds_have_files_and_needs() {
    assert_eq!(
        Build::LinuxCuda.asset(ARM),
        "aarch64-unknown-linux-gnu-cuda.tar.gz"
    );
    assert_eq!(
        Build::LinuxCuda.directory(LINUX),
        "x86_64-unknown-linux-gnu-cuda"
    );
    assert_eq!(
        RuntimePackage::Llama.url(Build::LinuxVulkan, LINUX),
        "https://github.com/koharu-rs/llama/releases/download/b10752/\
         x86_64-unknown-linux-gnu-vulkan.tar.gz"
    );
    assert_eq!(
        RuntimePackage::Llama.libraries(Build::MacosMetal),
        vec!["libllama.dylib", "libmtmd.dylib"]
    );
    assert_eq!(
        RuntimePackage::Diffusion.libraries(Build::WindowsHip),
        vec!["stable-diffusion.dll"]
    );
    let rocm = hardware(false, true, false, false);
    assert_eq!(
        Build::LinuxHip.dependencies(&rocm).unwrap(),
        vec![Component::Rocm(GfxTarget::Gfx1100)]
    );
    let none = hardware(false, false, false, false);
    assert_eq!(
        Build::LinuxHip.dependencies(&none),
        Err(NoRocmDevice)
    );
    assert_eq!(
        Build::WindowsCuda.dependencies(&none).unwrap(),
        vec![Component::CudaRuntime13, Component::CudaBlas13]
    );
    assert!(Build::MacosMetal.dependencies(&none).unwrap().is_empty());
}
