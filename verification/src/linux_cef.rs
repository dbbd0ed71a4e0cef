//! How the embedded browser is started on Linux.
use vstd::prelude::*;

verus! {

/// The switches that the browser is started with. A switch without a value needs its dashes, or the
/// browser takes it for an argument.
pub fn command_line_args() -> (r: [(&'static str, Option<&'static str>); 3])
    ensures
        r@[0].0@ == "--enable-unsafe-webgpu"@,
        r@[0].1 is None,
        r@[1].0@ == "use-angle"@,
        r@[1].1 matches Some(value) && value@ == "vulkan"@,
        r@[2].0@ == "--ozone-platform"@,
        r@[2].1 matches Some(value) && value@ == "x11"@,
{
    [
        ("--enable-unsafe-webgpu", None),
        ("use-angle", Some("vulkan")),
        ("--ozone-platform", Some("x11")),
    ]
}

/// The window system that is asked for, unless the user has chosen one.
pub fn gdk_backend_default(existing: Option<&str>) -> (r: Option<&'static str>)
    ensures
        existing is Some ==> r is None,
        existing is None ==> (r matches Some(backend) && backend@ == "x11"@),
{
    match existing {
        None => Some("x11"),
        Some(_) => None,
    }
}

} // verus!
