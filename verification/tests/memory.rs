use stride_kernel::kernel::Kernel;
use stride_kernel::mm::{MapPermission, MemorySet, PageSpan, TranslateError, VirtAddr};
use stride_kernel::syscall::{
    copy_paddr_vaddr, copy_vaddr_paddr, status_code, sys_fork, sys_get_time, sys_mmap,
    sys_munmap, sys_sbrk, sys_task_info, sys_yield, translated_str, TaskInfo, TimeVal,
    TASK_INFO_SIZE, TIME_VAL_SIZE,
};
use stride_kernel::task::TaskStatus;

fn boot() -> Kernel {
    Kernel::new(&vec![0u8; 0])
}

fn memory(k: &Kernel) -> &MemorySet {
    &k.current.as_ref().unwrap().memory_set
}

const RW: usize = 0x3;

// With an empty image the guard page is page 0x10 and the stack holds pages 0x11 and
// 0x12; the heap starts at 0x1_3000.
const BASE: usize = 0x10_0000;

#[test]
fn map_overlap_unmap_scenario() {
    let mut k = boot();
    assert_eq!(sys_mmap(&mut k, 0x1000, 0x2000, 0x3), 0);
    assert_eq!(sys_mmap(&mut k, 0x1000, 0x1000, 0x3), -1);
    assert_eq!(sys_munmap(&mut k, 0x1000, 0x2000), 0);
    assert_eq!(sys_munmap(&mut k, 0x1000, 0x2000), -1);
}

#[test]
fn map_over_the_image_or_the_stack_is_refused() {
    // an image of 0x3001 bytes takes four pages from 0x1_0000 on; a guard page and
    // the two pages of the stack follow
    let mut k = Kernel::new(&vec![1u8; 0x3001]);
    assert_eq!(sys_mmap(&mut k, 0x1_3000, 0x1000, RW), -1);
    assert_eq!(sys_mmap(&mut k, 0x1_4000, 0x2000, RW), -1);
    assert_eq!(sys_mmap(&mut k, 0x1_6000, 0x1000, RW), -1);
    assert_eq!(sys_mmap(&mut k, 0x1_4000, 0x1000, RW), 0);
    assert_eq!(sys_mmap(&mut k, 0x1_7000, 0x1000, RW), 0);
    // the stack can be unmapped and mapped again
    assert_eq!(sys_munmap(&mut k, 0x1_5000, 0x2000), 0);
    assert_eq!(sys_mmap(&mut k, 0x1_5000, 0x2000, RW), 0);
}

#[test]
fn mapped_pages_are_zeroed_and_carry_the_rights() {
    let mut k = boot();
    assert_eq!(sys_mmap(&mut k, BASE, 0x1001, 0x5), 0);
    let ms = memory(&k);
    let perm = ms.permission_of(BASE / 0x1000).unwrap();
    assert_eq!(perm, MapPermission { r: true, w: false, x: true, u: true });
    assert_eq!(ms.permission_of(BASE / 0x1000 + 1), Some(perm));
    assert_eq!(ms.permission_of(BASE / 0x1000 + 2), None);
    assert_eq!(ms.permission_of(BASE / 0x1000 - 1), None);
    assert_eq!(copy_vaddr_paddr(ms, BASE, 0x2000).unwrap(), vec![0u8; 0x2000]);
}

#[test]
fn map_refuses_bad_requests() {
    let mut k = boot();
    assert_eq!(sys_mmap(&mut k, BASE + 1, 0x1000, RW), -1);
    assert_eq!(sys_mmap(&mut k, BASE, 0x1000, 0), -1);
    assert_eq!(sys_mmap(&mut k, BASE, 0x1000, 8), -1);
    assert_eq!(sys_mmap(&mut k, BASE, 0x1000, 0xf), -1);
    assert_eq!(sys_mmap(&mut k, BASE, usize::MAX, RW), -1);
    assert_eq!(memory(&k).permission_of(BASE / 0x1000), None);
    for prot in 1..8usize {
        let start = BASE + prot * 0x1000;
        assert_eq!(sys_mmap(&mut k, start, 1, prot), 0);
        let perm = memory(&k).permission_of(start / 0x1000).unwrap();
        assert_eq!(perm.r, prot & 1 != 0);
        assert_eq!(perm.w, prot & 2 != 0);
        assert_eq!(perm.x, prot & 4 != 0);
        assert!(perm.u);
    }
}

#[test]
fn overlapping_map_leaves_the_first_mapping_intact() {
    let mut k = boot();
    assert_eq!(sys_mmap(&mut k, BASE, 0x3000, RW), 0);
    let task = k.current.as_mut().unwrap();
    copy_paddr_vaddr(&mut task.memory_set, &vec![5u8; 0x3000], BASE).unwrap();
    // partial overlaps at either end, inside, and around
    assert_eq!(sys_mmap(&mut k, BASE - 0x1000, 0x1001, RW), -1);
    assert_eq!(sys_mmap(&mut k, BASE + 0x2000, 0x4000, 0x7), -1);
    assert_eq!(sys_mmap(&mut k, BASE + 0x1000, 0x1000, 0x1), -1);
    assert_eq!(sys_mmap(&mut k, BASE - 0x1000, 0x8000, RW), -1);
    assert_eq!(copy_vaddr_paddr(memory(&k), BASE, 0x3000).unwrap(), vec![5u8; 0x3000]);
    assert_eq!(memory(&k).permission_of(BASE / 0x1000 - 1), None);
    assert_eq!(memory(&k).permission_of(BASE / 0x1000 + 3), None);
    assert_eq!(sys_munmap(&mut k, BASE, 0x3000), 0);
}

#[test]
fn unmap_of_a_range_never_mapped_changes_nothing() {
    let mut k = boot();
    assert_eq!(sys_mmap(&mut k, BASE, 0x1000, RW), 0);
    assert_eq!(sys_munmap(&mut k, BASE + 0x5000, 0x1000), -1);
    // partly mapped ranges are refused as a whole
    assert_eq!(sys_munmap(&mut k, BASE, 0x2000), -1);
    assert_eq!(sys_munmap(&mut k, BASE - 0x1000, 0x2000), -1);
    assert_eq!(sys_munmap(&mut k, BASE + 1, 0x1000), -1);
    assert!(memory(&k).permission_of(BASE / 0x1000).is_some());
    assert!(memory(&k).permission_of(0x11).is_some());
    assert!(memory(&k).permission_of(0x12).is_some());
}

#[test]
fn unmap_rounds_the_length_up_to_whole_pages() {
    let mut k = boot();
    assert_eq!(sys_mmap(&mut k, BASE, 0x2000, RW), 0);
    assert_eq!(sys_munmap(&mut k, BASE, 0x1001), 0);
    assert_eq!(memory(&k).permission_of(BASE / 0x1000), None);
    assert_eq!(memory(&k).permission_of(BASE / 0x1000 + 1), None);
}

#[test]
fn unmap_may_cut_an_area_in_the_middle() {
    let mut k = boot();
    assert_eq!(sys_mmap(&mut k, BASE, 0x5000, RW), 0);
    let task = k.current.as_mut().unwrap();
    let data: Vec<u8> = (0..0x5000u32).map(|i| (i / 0x1000 + 1) as u8).collect();
    copy_paddr_vaddr(&mut task.memory_set, &data, BASE).unwrap();
    assert_eq!(sys_munmap(&mut k, BASE + 0x1000, 0x2000), 0);
    let ms = memory(&k);
    assert_eq!(copy_vaddr_paddr(ms, BASE, 0x1000).unwrap(), vec![1u8; 0x1000]);
    assert_eq!(copy_vaddr_paddr(ms, BASE + 0x1000, 1), Err(TranslateError::NotMapped));
    assert_eq!(copy_vaddr_paddr(ms, BASE + 0x2000, 1), Err(TranslateError::NotMapped));
    assert_eq!(copy_vaddr_paddr(ms, BASE + 0x3000, 0x1000).unwrap(), vec![4u8; 0x1000]);
    assert_eq!(copy_vaddr_paddr(ms, BASE + 0x4000, 0x1000).unwrap(), vec![5u8; 0x1000]);
    // cut the head of the right part and the tail of what is left
    assert_eq!(sys_munmap(&mut k, BASE + 0x3000, 0x1000), 0);
    assert_eq!(sys_munmap(&mut k, BASE + 0x4000, 0x1000), 0);
    assert_eq!(sys_munmap(&mut k, BASE, 0x1000), 0);
    assert_eq!(sys_munmap(&mut k, BASE, 0x1000), -1);
}

#[test]
fn unmap_may_span_several_areas() {
    let mut k = boot();
    assert_eq!(sys_mmap(&mut k, BASE, 0x2000, RW), 0);
    assert_eq!(sys_mmap(&mut k, BASE + 0x2000, 0x2000, 0x1), 0);
    assert_eq!(sys_munmap(&mut k, BASE + 0x1000, 0x2000), 0);
    assert!(memory(&k).permission_of(BASE / 0x1000).is_some());
    assert!(memory(&k).permission_of(BASE / 0x1000 + 1).is_none());
    assert!(memory(&k).permission_of(BASE / 0x1000 + 2).is_none());
    assert!(memory(&k).permission_of(BASE / 0x1000 + 3).is_some());
}

#[test]
fn empty_requests_are_granted_and_change_nothing() {
    let mut k = boot();
    assert_eq!(sys_mmap(&mut k, 0x1000, 0, RW), 0);
    assert_eq!(sys_munmap(&mut k, BASE, 0), 0);
    assert!(memory(&k).permission_of(BASE / 0x1000).is_none());
    assert!(memory(&k).permission_of(1).is_none());
    assert!(memory(&k).permission_of(0x11).is_some());
}

#[test]
fn page_addresses_round_down_and_up() {
    assert_eq!(VirtAddr(0).floor(), 0);
    assert_eq!(VirtAddr(0).ceil(), 0);
    assert_eq!(VirtAddr(1).floor(), 0);
    assert_eq!(VirtAddr(1).ceil(), 1);
    assert_eq!(VirtAddr(0x1000).floor(), 1);
    assert_eq!(VirtAddr(0x1000).ceil(), 1);
    assert_eq!(VirtAddr(0x1fff).page_offset(), 0xfff);
    assert!(VirtAddr(0x3000).aligned());
    assert!(!VirtAddr(0x3008).aligned());
    assert_eq!(VirtAddr(usize::MAX).ceil(), usize::MAX / 0x1000 + 1);
}

#[test]
fn permissions_decode_from_the_request_bits() {
    assert_eq!(MapPermission::from_prot(0), None);
    assert_eq!(MapPermission::from_prot(8), None);
    assert_eq!(
        MapPermission::from_prot(6),
        Some(MapPermission { r: false, w: true, x: true, u: false })
    );
    assert_eq!(
        MapPermission::from_prot(1).unwrap().union(MapPermission::user()),
        MapPermission { r: true, w: false, x: false, u: true }
    );
    assert_eq!(MapPermission::empty().union(MapPermission::empty()), MapPermission::empty());
}

#[test]
fn a_range_is_cut_at_page_boundaries() {
    let ms = memory(&boot()).duplicate();
    let spans = ms.translated_byte_buffer(0x1_1ff0, 0x1010, false).unwrap();
    assert_eq!(
        spans,
        vec![
            PageSpan { vpn: 0x11, offset: 0xff0, len: 0x10 },
            PageSpan { vpn: 0x12, offset: 0, len: 0x1000 },
        ]
    );
    assert_eq!(
        ms.translated_byte_buffer(0x1_1ff0, 0x1011, false),
        Err(TranslateError::NotMapped)
    );
    assert_eq!(ms.translated_byte_buffer(0x1_2000, 0, true).unwrap(), vec![]);
    assert_eq!(
        ms.translated_byte_buffer(0x1_2008, 8, true).unwrap(),
        vec![PageSpan { vpn: 0x12, offset: 8, len: 8 }]
    );
}

#[test]
fn a_value_that_spans_two_pages_is_stored_whole() {
    let mut k = boot();
    let task = k.current.as_mut().unwrap();
    let src: Vec<u8> = (1..=10u8).collect();
    assert_eq!(copy_paddr_vaddr(&mut task.memory_set, &src, 0x1_1ffb), Ok(()));
    assert_eq!(copy_vaddr_paddr(&task.memory_set, 0x1_1ffb, 10).unwrap(), src);
    assert_eq!(copy_vaddr_paddr(&task.memory_set, 0x1_1ffa, 12).unwrap()[0], 0);
    assert_eq!(copy_vaddr_paddr(&task.memory_set, 0x1_1ffa, 12).unwrap()[11], 0);
    assert_eq!(copy_vaddr_paddr(&task.memory_set, 0x1_2000, 5).unwrap(), vec![6, 7, 8, 9, 10]);
}

#[test]
fn a_store_that_leaves_the_mapped_pages_stores_nothing() {
    let mut k = boot();
    let task = k.current.as_mut().unwrap();
    let src = vec![9u8; 0x20];
    assert_eq!(
        copy_paddr_vaddr(&mut task.memory_set, &src, 0x1_2ff0),
        Err(TranslateError::NotMapped)
    );
    assert_eq!(copy_vaddr_paddr(&task.memory_set, 0x1_2ff0, 0x10).unwrap(), vec![0u8; 0x10]);
    assert_eq!(
        copy_paddr_vaddr(&mut task.memory_set, &src, 0x1_0ff0),
        Err(TranslateError::NotMapped)
    );
    assert_eq!(copy_vaddr_paddr(&task.memory_set, 0x1_1000, 0x10).unwrap(), vec![0u8; 0x10]);
}

#[test]
fn rights_are_checked_on_every_page() {
    let mut k = boot();
    assert_eq!(sys_mmap(&mut k, BASE, 0x1000, 0x1), 0);
    assert_eq!(sys_mmap(&mut k, BASE + 0x1000, 0x1000, 0x2), 0);
    let task = k.current.as_mut().unwrap();
    let src = vec![1u8; 2];
    assert_eq!(
        copy_paddr_vaddr(&mut task.memory_set, &src, BASE),
        Err(TranslateError::PermissionDenied)
    );
    assert_eq!(copy_paddr_vaddr(&mut task.memory_set, &src, BASE + 0x1000), Ok(()));
    assert_eq!(
        copy_paddr_vaddr(&mut task.memory_set, &src, BASE + 0xfff),
        Err(TranslateError::PermissionDenied)
    );
    assert_eq!(copy_vaddr_paddr(&task.memory_set, BASE + 0xffe, 2).unwrap(), vec![0, 0]);
    assert_eq!(
        copy_vaddr_paddr(&task.memory_set, BASE + 0xfff, 2),
        Err(TranslateError::PermissionDenied)
    );
    assert_eq!(
        copy_vaddr_paddr(&task.memory_set, BASE + 0x1fff, 2),
        Err(TranslateError::PermissionDenied)
    );
    assert_eq!(
        copy_vaddr_paddr(&task.memory_set, BASE + 0x2000, 2),
        Err(TranslateError::NotMapped)
    );
}

#[test]
fn get_time_stores_seconds_and_microseconds() {
    let mut k = boot();
    k.advance_clock(3_000_250);
    assert_eq!(sys_get_time(&mut k, 0x1_1ffc, 0), 0);
    let bytes = copy_vaddr_paddr(memory(&k), 0x1_1ffc, TIME_VAL_SIZE).unwrap();
    let mut expected = 3u64.to_le_bytes().to_vec();
    expected.extend_from_slice(&250u64.to_le_bytes());
    assert_eq!(bytes, expected);
    assert_eq!(TimeVal { sec: 3, usec: 250 }.to_bytes(), expected);
    assert_eq!(sys_get_time(&mut k, 0x1_2ff8, 0), -1);
    assert_eq!(sys_get_time(&mut k, usize::MAX - 3, 0), -1);
    assert_eq!(copy_vaddr_paddr(memory(&k), 0x1_2ff8, 8).unwrap(), vec![0u8; 8]);
}

#[test]
fn the_clock_never_runs_backwards() {
    let mut k = boot();
    k.advance_clock(500);
    k.advance_clock(400);
    assert_eq!(k.clock_us, 500);
    k.advance_clock(501);
    assert_eq!(k.clock_us, 501);
}

#[test]
fn task_info_reports_status_counts_and_time() {
    let mut k = boot();
    k.advance_clock(5_000);
    sys_fork(&mut k);
    sys_yield(&mut k);
    assert_eq!(k.current.as_ref().unwrap().pid, 1);
    k.advance_clock(47_999);
    k.record_syscall(64);
    k.record_syscall(64);
    k.record_syscall(499);
    k.record_syscall(500);
    assert_eq!(sys_task_info(&mut k, 0x1_1800), 0);
    let bytes = copy_vaddr_paddr(memory(&k), 0x1_1800, TASK_INFO_SIZE).unwrap();
    assert_eq!(bytes.len(), 2016);
    assert_eq!(bytes[0..4], [1, 0, 0, 0]);
    for id in 0..500usize {
        let at = 4 + 4 * id;
        let count = u32::from_le_bytes([bytes[at], bytes[at + 1], bytes[at + 2], bytes[at + 3]]);
        let expected = match id {
            64 => 2,
            499 => 1,
            _ => 0,
        };
        assert_eq!(count, expected);
    }
    assert_eq!(bytes[2004..2008], [0, 0, 0, 0]);
    // created at 5 ms, asked at 47 ms
    assert_eq!(bytes[2008..2016], 42u64.to_le_bytes());
    let mut counts = [0u32; 500];
    counts[64] = 2;
    counts[499] = 1;
    let info = TaskInfo { status: TaskStatus::Running, syscall_times: counts, time: 42 };
    assert_eq!(info.to_bytes(), bytes);
    assert_eq!(sys_task_info(&mut k, 0x1_2900), -1);
}

#[test]
fn a_full_counter_stays_full() {
    let mut k = boot();
    k.current.as_mut().unwrap().syscall_times[7] = u32::MAX;
    k.record_syscall(7);
    assert_eq!(k.current.as_ref().unwrap().syscall_times[7], u32::MAX);
}

#[test]
fn sbrk_moves_the_break_and_returns_the_old_one() {
    let mut k = boot();
    // the heap starts above the stack, at 0x1_3000
    assert_eq!(sys_sbrk(&mut k, 0), 0x1_3000);
    assert_eq!(sys_sbrk(&mut k, 10), 0x1_3000);
    assert_eq!(k.current.as_ref().unwrap().program_brk, 0x1_300a);
    assert_eq!(
        memory(&k).permission_of(0x13),
        Some(MapPermission { r: true, w: true, x: false, u: true })
    );
    assert_eq!(sys_sbrk(&mut k, 0x1000), 0x1_300a);
    assert!(memory(&k).permission_of(0x14).is_some());
    assert!(memory(&k).permission_of(0x15).is_none());
    assert_eq!(sys_sbrk(&mut k, -0x100a), 0x1_400a);
    assert_eq!(k.current.as_ref().unwrap().program_brk, 0x1_3000);
    assert_eq!(k.current.as_ref().unwrap().heap_bottom, 0x1_3000);
    assert!(memory(&k).permission_of(0x13).is_none());
    assert!(memory(&k).permission_of(0x14).is_none());
}

#[test]
fn sbrk_refuses_what_it_cannot_grant() {
    let mut k = boot();
    assert_eq!(sys_sbrk(&mut k, -1), -1);
    assert_eq!(sys_sbrk(&mut k, i32::MAX), -1);
    assert_eq!(k.current.as_ref().unwrap().program_brk, 0x1_3000);
    // a mapping in the way of the heap
    assert_eq!(sys_mmap(&mut k, 0x1_5000, 0x1000, RW), 0);
    assert_eq!(sys_sbrk(&mut k, 0x2000), 0x1_3000);
    assert_eq!(sys_sbrk(&mut k, 1), -1);
    assert_eq!(k.current.as_ref().unwrap().program_brk, 0x1_5000);
    // heap pages that were unmapped behind its back
    assert_eq!(sys_munmap(&mut k, 0x1_4000, 0x1000), 0);
    assert_eq!(sys_sbrk(&mut k, -0x2000), -1);
    assert_eq!(sys_sbrk(&mut k, -0x1000), -1);
    assert_eq!(k.current.as_ref().unwrap().program_brk, 0x1_5000);
}

#[test]
fn the_break_stops_at_the_user_space_limit() {
    let mut k = boot();
    // up to the limit of 0x7fff_f000 in steps that keep the test small: the pages are
    // taken by a mapping just below the limit, so the heap cannot reach it
    assert_eq!(sys_mmap(&mut k, 0x7fff_e000, 0x1000, RW), 0);
    assert_eq!(sys_sbrk(&mut k, 0x7ffe_c000), -1);
    assert_eq!(sys_sbrk(&mut k, 0x7ffe_c001), -1);
}

#[test]
fn image_is_loaded_at_the_base_address() {
    let data: Vec<u8> = (0..5000u32).map(|i| (i % 251) as u8).collect();
    let (ms, sp, entry) = MemorySet::from_image(&data);
    assert_eq!(entry, 0x1_0000);
    // two pages of image, one guard page, two pages of stack
    assert_eq!(sp, 0x1_5000);
    assert_eq!(copy_vaddr_paddr(&ms, 0x1_0000, 5000).unwrap(), data);
    assert_eq!(
        copy_vaddr_paddr(&ms, 0x1_0000 + 5000, 0x2000 - 5000).unwrap(),
        vec![0u8; 0x2000 - 5000]
    );
    assert_eq!(ms.permission_of(0xf), None);
    assert_eq!(ms.permission_of(0x10), Some(MapPermission { r: true, w: true, x: true, u: true }));
    assert_eq!(ms.permission_of(0x11), ms.permission_of(0x10));
    assert_eq!(ms.permission_of(0x12), None);
    assert_eq!(ms.permission_of(0x13), Some(MapPermission { r: true, w: true, x: false, u: true }));
    assert_eq!(ms.permission_of(0x14), ms.permission_of(0x13));
    assert_eq!(ms.permission_of(0x15), None);
    assert!(ms.overlaps(0x11, 0x13));
    assert!(!ms.overlaps(0x12, 0x13));
    assert!(!ms.overlaps(0x13, 0x13));
    assert!(!ms.overlaps(0, 0x10));
    assert!(ms.covers(0x10, 0x12));
    assert!(!ms.covers(0x10, 0x13));
    assert!(ms.covers(0x13, 0x15));
    assert!(ms.covers(7, 7));
}

#[test]
fn a_string_ends_at_its_first_zero_byte() {
    let mut k = boot();
    let task = k.current.as_mut().unwrap();
    let mut text = b"initproc".to_vec();
    text.push(0);
    text.extend_from_slice(b"rest");
    copy_paddr_vaddr(&mut task.memory_set, &text, 0x1_1ffc).unwrap();
    let ms = &task.memory_set;
    assert_eq!(translated_str(ms, 0x1_1ffc).unwrap(), b"initproc".to_vec());
    assert_eq!(translated_str(ms, 0x1_2000).unwrap(), b"proc".to_vec());
    assert_eq!(translated_str(ms, 0x1_2004).unwrap(), Vec::<u8>::new());
    assert_eq!(translated_str(ms, 0x1_2005).unwrap(), b"rest".to_vec());
}

#[test]
fn a_string_that_runs_off_the_mapped_pages_is_refused() {
    let mut k = boot();
    let task = k.current.as_mut().unwrap();
    copy_paddr_vaddr(&mut task.memory_set, &vec![b'a'; 16], 0x1_2ff0).unwrap();
    let ms = &task.memory_set;
    assert_eq!(
        translated_str(ms, 0x1_2ff0),
        Err(TranslateError::NotMapped)
    );
    assert_eq!(translated_str(ms, 0), Err(TranslateError::NotMapped));
    assert_eq!(
        translated_str(ms, usize::MAX),
        Err(TranslateError::NotMapped)
    );
    let mut k = boot();
    assert_eq!(sys_mmap(&mut k, BASE, 0x1000, 0x2), 0);
    assert_eq!(
        translated_str(memory(&k), BASE),
        Err(TranslateError::PermissionDenied)
    );
}

#[test]
fn statuses_have_their_numbers() {
    assert_eq!(status_code(TaskStatus::Ready), 0);
    assert_eq!(status_code(TaskStatus::Running), 1);
    assert_eq!(status_code(TaskStatus::Zombie), 2);
}
