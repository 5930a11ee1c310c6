//! Ready-made module contributions for examples and tests.
use vstd::prelude::*;

use crate::config::Mode;
use crate::mount_tree::{MountSource, NodeFileType};
use crate::text::{append_str, owned};

verus! {

/// A contribution of `module` at `relative` whose source lies under the
/// standard module directory, `/data/adb/modules/<module>/<relative>`.
pub fn mount_source(module: &str, relative: &str, file_type: NodeFileType, backend: Mode) -> (r:
    MountSource)
    ensures
        r.module_id@ == module@,
        r.relative@ == relative@,
        r.source_path@ == "/data/adb/modules/"@ + module@ + "/"@ + relative@,
        r.file_type == file_type,
        !r.replace,
        r.backend == backend,
{
    let mut path = owned("/data/adb/modules/");
    append_str(&mut path, module);
    append_str(&mut path, "/");
    append_str(&mut path, relative);
    mount_source_at(module, relative, file_type, backend, path)
}

/// A contribution of `module` at `relative` with an explicit source path.
pub fn mount_source_at(
    module: &str,
    relative: &str,
    file_type: NodeFileType,
    backend: Mode,
    source_path: String,
) -> (r: MountSource)
    ensures
        r.module_id@ == module@,
        r.relative@ == relative@,
        r.source_path == source_path,
        r.file_type == file_type,
        !r.replace,
        r.backend == backend,
{
    MountSource {
        module_id: owned(module),
        relative: owned(relative),
        source_path,
        file_type,
        replace: false,
        backend,
    }
}

} // verus!
