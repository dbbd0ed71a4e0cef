//! The packages that run models, and which of them fits the hardware.
use crate::hardware::targets::GfxTarget;
use crate::text;
use vstd::prelude::*;

verus! {

/// What the hardware supports.
#[derive(Clone, Copy, Debug, PartialEq, Eq, Structural)]
pub struct Hardware {
    pub cuda: bool,
    pub rocm: bool,
    pub vulkan: bool,
    pub metal: bool,
    /// The architecture of the first AMD device.
    pub rocm_target: Option<GfxTarget>,
}

/// The system that packages are chosen for.
#[derive(Clone, Copy, Debug, PartialEq, Eq, Structural)]
pub struct Platform {
    pub windows: bool,
    /// Linux on an ARM processor.
    pub linux_arm: bool,
}

/// A build of a package.
#[derive(Clone, Copy, Debug, PartialEq, Eq, Structural, Hash)]
pub enum Build {
    WindowsCuda,
    LinuxCuda,
    WindowsHip,
    LinuxHip,
    WindowsVulkan,
    LinuxVulkan,
    MacosMetal,
}

/// A package: the diffusion models, or the language models.
#[derive(Clone, Copy, Debug, PartialEq, Eq, Structural, Hash)]
pub enum RuntimePackage {
    Diffusion,
    Llama,
}

/// What a package needs beside itself.
#[derive(Clone, Copy, Debug, PartialEq, Eq, Structural)]
pub enum Component {
    CudaRuntime13,
    CudaBlas13,
    Rocm(GfxTarget),
}

/// No AMD device was found.
#[derive(Clone, Copy, Debug, PartialEq, Eq, Structural)]
pub struct NoRocmDevice;

/// The build that fits the hardware: the first that is supported, of those for CUDA, ROCm, Vulkan and
/// Metal.
pub open spec fn fitting(hardware: Hardware, windows: bool) -> Option<Build> {
    if hardware.cuda {
        Some(
            if windows {
                Build::WindowsCuda
            } else {
                Build::LinuxCuda
            },
        )
    } else if hardware.rocm {
        Some(
            if windows {
                Build::WindowsHip
            } else {
                Build::LinuxHip
            },
        )
    } else if hardware.vulkan {
        Some(
            if windows {
                Build::WindowsVulkan
            } else {
                Build::LinuxVulkan
            },
        )
    } else if hardware.metal {
        Some(Build::MacosMetal)
    } else {
        None
    }
}

impl Build {
    /// The build that fits the hardware.
    pub fn discover(hardware: &Hardware, platform: Platform) -> (r: Option<Build>)
        ensures
            r == fitting(*hardware, platform.windows),
    {
        if hardware.cuda {
            return Some(
                if platform.windows {
                    Build::WindowsCuda
                } else {
                    Build::LinuxCuda
                },
            );
        }
        if hardware.rocm {
            return Some(
                if platform.windows {
                    Build::WindowsHip
                } else {
                    Build::LinuxHip
                },
            );
        }
        if hardware.vulkan {
            return Some(
                if platform.windows {
                    Build::WindowsVulkan
                } else {
                    Build::LinuxVulkan
                },
            );
        }
        if hardware.metal {
            Some(Build::MacosMetal)
        } else {
            None
        }
    }

    /// The build's target and backend, as its archive is named.
    pub open spec fn triple(self, linux_arm: bool) -> Seq<char> {
        match self {
            Build::WindowsCuda => "x86_64-pc-windows-msvc-cuda"@,
            Build::LinuxCuda => if linux_arm {
                "aarch64-unknown-linux-gnu-cuda"@
            } else {
                "x86_64-unknown-linux-gnu-cuda"@
            },
            Build::WindowsHip => "x86_64-pc-windows-msvc-hip"@,
            Build::LinuxHip => "x86_64-unknown-linux-gnu-hip"@,
            Build::WindowsVulkan => "x86_64-pc-windows-msvc-vulkan"@,
            Build::LinuxVulkan => "x86_64-unknown-linux-gnu-vulkan"@,
            Build::MacosMetal => "aarch64-apple-darwin-metal"@,
        }
    }

    /// The name of the directory that the build is unpacked into.
    pub fn directory(self, platform: Platform) -> (r: &'static str)
        ensures
            r@ == self.triple(platform.linux_arm),
    {
        match self {
            Build::WindowsCuda => "x86_64-pc-windows-msvc-cuda",
            Build::LinuxCuda => if platform.linux_arm {
                "aarch64-unknown-linux-gnu-cuda"
            } else {
                "x86_64-unknown-linux-gnu-cuda"
            },
            Build::WindowsHip => "x86_64-pc-windows-msvc-hip",
            Build::LinuxHip => "x86_64-unknown-linux-gnu-hip",
            Build::WindowsVulkan => "x86_64-pc-windows-msvc-vulkan",
            Build::LinuxVulkan => "x86_64-unknown-linux-gnu-vulkan",
            Build::MacosMetal => "aarch64-apple-darwin-metal",
        }
    }

    /// The name of the archive that holds the build.
    pub fn asset(self, platform: Platform) -> (r: String)
        ensures
            r@ == self.triple(platform.linux_arm) + ".tar.gz"@,
    {
        text::joined(self.directory(platform), ".tar.gz")
    }

    /// What the build needs beside itself.
    pub fn dependencies(self, hardware: &Hardware) -> (r: Result<Vec<Component>, NoRocmDevice>)
        ensures
            match self {
                Build::WindowsCuda | Build::LinuxCuda => r matches Ok(needed) && needed@ == seq![
                    Component::CudaRuntime13,
                    Component::CudaBlas13,
                ],
                Build::WindowsHip | Build::LinuxHip => match hardware.rocm_target {
                    Some(target) => r matches Ok(needed) && needed@ == seq![Component::Rocm(target)],
                    None => r is Err,
                },
                Build::WindowsVulkan | Build::LinuxVulkan | Build::MacosMetal => r matches Ok(
                    needed,
                ) && needed@.len() == 0,
            },
    {
        match self {
            Build::WindowsCuda | Build::LinuxCuda => Ok(
                vec![Component::CudaRuntime13, Component::CudaBlas13],
            ),
            Build::WindowsHip | Build::LinuxHip => match hardware.rocm_target {
                Some(target) => Ok(vec![Component::Rocm(target)]),
                None => Err(NoRocmDevice),
            },
            Build::WindowsVulkan | Build::LinuxVulkan | Build::MacosMetal => Ok(Vec::new()),
        }
    }
}

impl RuntimePackage {
    /// The name of the package.
    pub open spec fn label(self) -> Seq<char> {
        match self {
            RuntimePackage::Diffusion => "diffusion"@,
            RuntimePackage::Llama => "llama"@,
        }
    }

    /// The name of the package.
    pub fn name(self) -> (r: &'static str)
        ensures
            r@ == self.label(),
    {
        match self {
            RuntimePackage::Diffusion => "diffusion",
            RuntimePackage::Llama => "llama",
        }
    }

    /// The release that is installed.
    pub open spec fn edition(self) -> Seq<char> {
        match self {
            RuntimePackage::Diffusion => "master-841-6b3edaa.2"@,
            RuntimePackage::Llama => "b10752"@,
        }
    }

    /// The release that is installed.
    pub fn release(self) -> (r: &'static str)
        ensures
            r@ == self.edition(),
    {
        match self {
            RuntimePackage::Diffusion => "master-841-6b3edaa.2",
            RuntimePackage::Llama => "b10752",
        }
    }

    /// The names of the libraries of a build, in the order in which they are loaded.
    pub open spec fn library_names(self, build: Build) -> Seq<Seq<char>> {
        match self {
            RuntimePackage::Diffusion => match build {
                Build::WindowsCuda | Build::WindowsHip | Build::WindowsVulkan => seq![
                    "stable-diffusion.dll"@,
                ],
                Build::LinuxCuda | Build::LinuxHip | Build::LinuxVulkan => seq![
                    "libstable-diffusion.so"@,
                ],
                Build::MacosMetal => seq!["libstable-diffusion.dylib"@],
            },
            RuntimePackage::Llama => match build {
                Build::WindowsCuda | Build::WindowsHip | Build::WindowsVulkan => seq![
                    "llama.dll"@,
                    "mtmd.dll"@,
                ],
                Build::LinuxCuda | Build::LinuxHip | Build::LinuxVulkan => seq![
                    "libllama.so"@,
                    "libmtmd.so"@,
                ],
                Build::MacosMetal => seq!["libllama.dylib"@, "libmtmd.dylib"@],
            },
        }
    }

    /// The names of the libraries of a build, in the order in which they are loaded.
    pub fn libraries(self, build: Build) -> (r: Vec<&'static str>)
        ensures
            r@.len() == self.library_names(build).len(),
            forall|i: int|
                0 <= i < r@.len() ==> (#[trigger] r@[i])@ == self.library_names(build)[i],
    {
        match self {
            RuntimePackage::Diffusion => match build {
                Build::WindowsCuda | Build::WindowsHip | Build::WindowsVulkan => vec![
                    "stable-diffusion.dll",
                ],
                Build::LinuxCuda | Build::LinuxHip | Build::LinuxVulkan => vec![
                    "libstable-diffusion.so",
                ],
                Build::MacosMetal => vec!["libstable-diffusion.dylib"],
            },
            RuntimePackage::Llama => match build {
                Build::WindowsCuda | Build::WindowsHip | Build::WindowsVulkan => vec![
                    "llama.dll",
                    "mtmd.dll",
                ],
                Build::LinuxCuda | Build::LinuxHip | Build::LinuxVulkan => vec![
                    "libllama.so",
                    "libmtmd.so",
                ],
                Build::MacosMetal => vec!["libllama.dylib", "libmtmd.dylib"],
            },
        }
    }

    /// Where a build is downloaded from.
    pub fn url(self, build: Build, platform: Platform) -> (r: String)
        ensures
            r@ == "https://github.com/koharu-rs/"@ + self.label() + "/releases/download/"@
                + self.edition() + "/"@ + build.triple(platform.linux_arm) + ".tar.gz"@,
    {
        let mut url = text::joined("https://github.com/koharu-rs/", self.name());
        url.append("/releases/download/");
        url.append(self.release());
        url.append("/");
        url.append(build.directory(platform));
        url.append(".tar.gz");
        url
    }
}

/// Where an AMD device goes with a known architecture, a build for it is chosen only where what it
/// needs can be named.
pub proof fn lemma_fitting_build_is_served(hardware: Hardware, windows: bool)
    requires
        hardware.rocm ==> hardware.rocm_target is Some,
    ensures
        fitting(hardware, windows) matches Some(build) ==> (build is WindowsHip || build is LinuxHip)
            ==> hardware.rocm_target is Some,
{
}

/// CUDA goes before ROCm, ROCm before Vulkan, and Vulkan before Metal. A build for Windows is taken
/// on Windows and nowhere else; without any of them there is none.
pub proof fn lemma_order_of_builds(hardware: Hardware, windows: bool)
    ensures
        ({
            let build = fitting(hardware, windows);
            &&& (build matches Some(Build::WindowsCuda)) <==> hardware.cuda && windows
            &&& (build matches Some(Build::LinuxCuda)) <==> hardware.cuda && !windows
            &&& (build matches Some(Build::WindowsHip)) <==> !hardware.cuda && hardware.rocm
                && windows
            &&& (build matches Some(Build::LinuxHip)) <==> !hardware.cuda && hardware.rocm
                && !windows
            &&& (build matches Some(Build::WindowsVulkan)) <==> !hardware.cuda && !hardware.rocm
                && hardware.vulkan && windows
            &&& (build matches Some(Build::LinuxVulkan)) <==> !hardware.cuda && !hardware.rocm
                && hardware.vulkan && !windows
            &&& (build matches Some(Build::MacosMetal)) <==> !hardware.cuda && !hardware.rocm
                && !hardware.vulkan && hardware.metal
            &&& build is None <==> !hardware.cuda && !hardware.rocm && !hardware.vulkan
                && !hardware.metal
        }),
{
}

} // verus!
