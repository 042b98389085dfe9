# et_radiosity

A radiosity renderer for the Cornell box on the ET-SoC-1 RISC-V accelerator. The
scene is cut into patches, the device computes the form factors between them, the
host solves for the radiosity of every patch by Jacobi iteration, and the result is
ray-cast into a PNG image on the host or on the device.

`src/` is the renderer's logic, verified with Verus:

| Module | What it proves |
|--------|----------------|
| `ieee` | ordering and classification of binary32 patterns |
| `fold` | left folds by a function of the caller |
| `abi` | layout of what host and kernels exchange, and that reading undoes writing |
| `scene` | faces to patches: the lattice covers each face once, in cells one step wide; which faces occlude |
| `ff_kernel` | rows per hart, where results go, the form factor of each pair; reciprocity, and that occluders never reveal |
| `device_ops` | uploads, launch arguments, normalised rows of shares; the Jacobi solve adds light and is linear |
| `vertices` | patch corners to vertices, and the mean radiosity of the patches at each |
| `render` | nearest hit, interpolation, white point, frame layout |
| `render_kernel` | pixels per hart, their colours, camera buffer, gamma curve |
| `gamma` | how far the gamma curve is from the exact root |
| `trace` | kernel trace messages, device topology |
| `cli`, `xtask`, `text` | command-line values, deployment commands, text |

Scalars cross the library as the `u32` patterns of binary32 numbers. It compares and
classifies them itself; arithmetic on them is done by functions that the caller hands
in, and contracts speak of the results of those functions.

`app/` is the program around the library: command line, files, device driver,
threads and floating-point arithmetic. `app/kernels/` holds the entry points that are
linked for the device; they need a device target with `std` and an allocator.
