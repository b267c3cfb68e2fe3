use proc_core::config::{USER_STACK_SIZE, WORD_SIZE};
use proc_core::kernel::Kernel;
use proc_core::mm::ExecImage;

fn image() -> ExecImage {
    ExecImage { entry_point: 4096, ustack_base: 1 << 20, brk_init: 1 << 19, token: 9 }
}

fn kernel_with_one_process() -> Kernel {
    let mut k = Kernel::new();
    assert_eq!(k.create_process(&image()), 0);
    assert!(k.run_next());
    k
}

#[test]
fn mmap_validates_bits_alignment_and_length() {
    let mut k = kernel_with_one_process();
    // bits above the low three are refused
    assert_eq!(k.sys_mmap(4096, 4096, 0x8), -1);
    // no access bit at all is refused
    assert_eq!(k.sys_mmap(4096, 4096, 0x0), -1);
    // an unaligned start is refused
    assert_eq!(k.sys_mmap(4097, 4096, 0x3), -1);
    // an empty region is refused
    assert_eq!(k.sys_mmap(4096, 0, 0x3), -1);
    // a valid request passes
    assert_eq!(k.sys_mmap(4096, 4096, 0x3), 0);
    // a colliding request is refused
    assert_eq!(k.sys_mmap(4096, 4096, 0x3), -1);
    assert_eq!(k.sys_mmap(0, 8192, 0x1), -1);
    // a disjoint request passes
    assert_eq!(k.sys_mmap(16384, 4096, 0x7), 0);
}

#[test]
fn munmap_removes_exactly_the_requested_region() {
    let mut k = kernel_with_one_process();
    assert_eq!(k.sys_mmap(4096, 8192, 0x3), 0);
    assert_eq!(k.sys_munmap(4097, 8192), -1);
    assert_eq!(k.sys_munmap(4096, 0), -1);
    assert_eq!(k.sys_munmap(8192, 4096), -1);
    assert_eq!(k.sys_munmap(4096, 8192), 0);
    // the region is gone; removing it again fails, mapping it anew works
    assert_eq!(k.sys_munmap(4096, 8192), -1);
    assert_eq!(k.sys_mmap(4096, 8192, 0x3), 0);
}

#[test]
fn sbrk_moves_the_break_and_reports_the_old_one() {
    let mut k = kernel_with_one_process();
    let base = 1usize << 19;
    assert_eq!(k.sys_sbrk(100), base as isize);
    assert_eq!(k.sys_sbrk(0), (base + 100) as isize);
    // shrinking below the heap bottom is refused
    assert_eq!(k.sys_sbrk(-200), -1);
    assert_eq!(k.sys_sbrk(-100), (base + 100) as isize);
    assert_eq!(k.sys_sbrk(0), base as isize);
}

#[test]
fn exec_lays_arguments_out_on_the_new_stack() {
    let mut k = kernel_with_one_process();
    let args: Vec<Vec<u8>> = vec![b"hi".to_vec(), b"there".to_vec()];
    assert_eq!(k.sys_exec(Some(&image()), &args), 0);

    let top = (1usize << 20) + USER_STACK_SIZE;
    let argv_base = top - WORD_SIZE * 3;
    let arg0 = argv_base - 3;
    let arg1 = arg0 - 6;

    let p = k.procs[0].as_ref().unwrap().inner_exclusive_access();
    // the argument-pointer vector, null-terminated
    assert_eq!(p.memory_set.read_word(argv_base), Some(arg0));
    assert_eq!(p.memory_set.read_word(argv_base + WORD_SIZE), Some(arg1));
    assert_eq!(p.memory_set.read_word(argv_base + 2 * WORD_SIZE), Some(0));
    // the strings, each null-terminated, high to low
    assert_eq!(p.memory_set.read_byte(arg0), Some(b'h'));
    assert_eq!(p.memory_set.read_byte(arg0 + 1), Some(b'i'));
    assert_eq!(p.memory_set.read_byte(arg0 + 2), Some(0));
    for (i, b) in b"there".iter().enumerate() {
        assert_eq!(p.memory_set.read_byte(arg1 + i), Some(*b));
    }
    assert_eq!(p.memory_set.read_byte(arg1 + 5), Some(0));
    // the entry context observes argc and argv and an aligned stack
    let t = p.tasks[0].as_ref().unwrap();
    assert_eq!(t.trap_cx.a0, 2);
    assert_eq!(t.trap_cx.a1, argv_base);
    assert_eq!(t.trap_cx.sp, arg1 - arg1 % WORD_SIZE);
    assert_eq!(t.trap_cx.sepc, 4096);
}

#[test]
fn exec_without_image_fails() {
    let mut k = kernel_with_one_process();
    let args: Vec<Vec<u8>> = Vec::new();
    assert_eq!(k.sys_exec(None, &args), -1);
}

#[test]
fn exec_with_no_arguments_terminates_argv_immediately() {
    let mut k = kernel_with_one_process();
    let args: Vec<Vec<u8>> = Vec::new();
    assert_eq!(k.sys_exec(Some(&image()), &args), 0);
    let top = (1usize << 20) + USER_STACK_SIZE;
    let argv_base = top - WORD_SIZE;
    let p = k.procs[0].as_ref().unwrap().inner_exclusive_access();
    assert_eq!(p.memory_set.read_word(argv_base), Some(0));
    let t = p.tasks[0].as_ref().unwrap();
    assert_eq!(t.trap_cx.a0, 0);
    assert_eq!(t.trap_cx.a1, argv_base);
}
