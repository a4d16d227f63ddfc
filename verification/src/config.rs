use vstd::prelude::*;

verus! {

/// Default GO_ROOT at `/usr/local/go`
pub const GO_ROOT: &'static str = "/usr/local/go";

/// Default GO_PATH at `~/.go`
pub const GO_PATH: &'static str = "~/.go";

/// Default download url
pub const URL: &'static str = "https://go.dev/dl/";

/// The path to your shell profile
///
/// If you use zsh then it should be `~/.zshrc`
///
/// For bash simply `~/.bashrc`
pub const SHELL_PROFILE: &'static str = "~/.zshrc";

} // verus!
