//! Runtime checks of the supporting components: rounding utilities, the
//! bitmap, the free list, addresses, page table entries, the locks and the
//! process bookkeeping.

use arno::address::{Address, PhysicalAddress, VirtualAddress};
use arno::bitmap::Bitmap;
use arno::free_list::FreeList;
use arno::fs::{Disk, Disks};
use arno::locks::{SleepLock, SpinLock};
use arno::page_table::{BitMasks, PageTable, PageTableEntry};
use arno::process::{Core, Process, ProcessData, ProcessManager, ProcessMetadata, ProcessState};
use arno::utils::{ceilToMultiple, floorToMultiple, isPowerOfTwo, log2Floor, pow2Exec};

#[test]
fn rounding_up_and_down() {
    assert_eq!(ceilToMultiple(1, 8), 8);
    assert_eq!(ceilToMultiple(8, 8), 8);
    assert_eq!(ceilToMultiple(9, 8), 16);
    assert_eq!(ceilToMultiple(4097, 4096), 8192);
    assert_eq!(floorToMultiple(0, 8), 0);
    assert_eq!(floorToMultiple(7, 8), 0);
    assert_eq!(floorToMultiple(8, 8), 8);
    assert_eq!(floorToMultiple(12400, 16), 12400);
    assert_eq!(floorToMultiple(12401, 16), 12400);
}

#[test]
fn power_of_two_tests() {
    assert!(isPowerOfTwo(1));
    assert!(isPowerOfTwo(2));
    assert!(isPowerOfTwo(16));
    assert!(isPowerOfTwo(4096));
    assert!(!isPowerOfTwo(0));
    assert!(!isPowerOfTwo(3));
    assert!(!isPowerOfTwo(12));
    assert_eq!(pow2Exec(0), 1);
    assert_eq!(pow2Exec(5), 32);
    assert_eq!(pow2Exec(12), 4096);
    assert_eq!(log2Floor(1), 0);
    assert_eq!(log2Floor(8), 3);
    assert_eq!(log2Floor(9), 3);
    assert_eq!(log2Floor(255), 7);
    assert_eq!(log2Floor(256), 8);
}

#[test]
fn bitmap_set_and_clear() {
    let mut bm = Bitmap::new(10);
    assert!(!bm.get(0));
    assert!(!bm.get(9));
    bm.set(3);
    assert!(bm.get(3));
    assert!(!bm.get(2));
    assert!(!bm.get(4));
    bm.clear(3);
    assert!(!bm.get(3));
}

#[test]
fn free_list_push_pop_is_lifo() {
    let mut fl = FreeList::new(8);
    assert_eq!(fl.len(), 0);
    fl.push(2);
    fl.push(5);
    fl.push(7);
    assert_eq!(fl.len(), 3);
    assert!(fl.contains(5));
    assert!(!fl.contains(3));
    assert_eq!(fl.pop(), 7);
    assert_eq!(fl.pop(), 5);
    assert_eq!(fl.pop(), 2);
    assert_eq!(fl.len(), 0);
}

#[test]
fn free_list_removes_arbitrary_member() {
    let mut fl = FreeList::new(8);
    fl.push(1);
    fl.push(2);
    fl.push(3);
    fl.remove(1);
    assert!(!fl.contains(1));
    assert!(fl.contains(2));
    assert!(fl.contains(3));
    // The most recently freed member moved into the removed slot.
    assert_eq!(fl.pop(), 2);
    assert_eq!(fl.pop(), 3);
}

#[test]
fn addresses_wrap_plain_words() {
    let pa = PhysicalAddress::new(0x80000000);
    assert_eq!(pa.asUsize(), 0x80000000);
    assert_eq!(*pa.asUsizeRef(), 0x80000000);
    let mut va = VirtualAddress::new(0x1000);
    va.increaseByAPage();
    assert_eq!(va.asUsize(), 0x2000);
    *va.asUsizeMutRef() = 0x3000;
    assert_eq!(va.asUsize(), 0x3000);
}

#[test]
fn virtual_address_page_numbers() {
    let va = VirtualAddress::new((5 << 30) | (17 << 21) | (321 << 12) | 0x123);
    assert_eq!(va.getCorrespondingPPN(2), 5);
    assert_eq!(va.getCorrespondingPPN(1), 17);
    assert_eq!(va.getCorrespondingPPN(0), 321);
}

#[test]
fn page_table_entry_encoding() {
    let zero = PageTableEntry(0);
    assert!(!zero.isValid());
    let mut e = PageTableEntry(0);
    let flags = BitMasks::MAKE_READABLE.mask() | BitMasks::MAKE_WRITABLE.mask();
    e.setPhysicalAddress(0xABC000, flags);
    assert!(e.isValid());
    assert_eq!(e.toPhysicalAddress(), 0xABC000);
    assert_eq!(e.0, (0xABC << 10) | 2 | 4 | 1);
}

#[test]
fn bit_masks_values() {
    assert_eq!(BitMasks::MAKE_VALID.mask(), 1);
    assert_eq!(BitMasks::MAKE_READABLE.mask(), 2);
    assert_eq!(BitMasks::MAKE_WRITABLE.mask(), 4);
    assert_eq!(BitMasks::MAKE_EXECUTABLE.mask(), 8);
    assert_eq!(BitMasks::MAKE_USERSPACE_ACCESSIBLE.mask(), 16);
}

#[test]
fn page_table_starts_empty() {
    let t = PageTable::empty();
    assert_eq!(t.entries.len(), 512);
    assert_eq!(t.entries[0].0, 0);
    assert_eq!(t.entries[511].0, 0);
    assert!(!t.entries[100].isValid());
}

#[test]
fn spin_lock_guards_its_data() {
    let mut lock = SpinLock::new(41usize);
    let guard = lock.acquire();
    assert_eq!(*lock.data(), 41);
    *lock.data_mut() += 1;
    lock.release(guard);
    let guard = lock.acquire();
    assert_eq!(*lock.data(), 42);
    lock.release(guard);
}

#[test]
fn sleep_lock_guards_its_data() {
    let mut lock = SleepLock::new(String::new());
    let guard = lock.acquire();
    lock.data_mut().push('x');
    assert_eq!(lock.data().len(), 1);
    lock.release(guard);
}

#[test]
fn core_tracks_nested_interrupt_sections() {
    let mut core = Core::new();
    // Entering the outermost section disables interrupts and remembers
    // that they were enabled.
    assert!(core.enterInterruptsDisabledSection(true));
    // A nested section changes nothing on the machine.
    assert!(!core.enterInterruptsDisabledSection(false));
    assert!(!core.exitInterruptsDisabledSection());
    // Leaving the outermost section re-enables interrupts.
    assert!(core.exitInterruptsDisabledSection());
    // If interrupts were disabled before the outermost entry, they stay so.
    assert!(core.enterInterruptsDisabledSection(false));
    assert!(!core.exitInterruptsDisabledSection());
}

#[test]
fn process_table_starts_unused() {
    let mut p = Process::new();
    let guard = p.metadata.acquire();
    assert!(p.metadata.data().state == ProcessState::UNUSED);
    p.metadata.release(guard);
    let m = ProcessMetadata::new();
    assert!(m.state == ProcessState::UNUSED);
    let _d = ProcessData::new();
    let manager = ProcessManager::new();
    assert_eq!(manager.processes.len(), 64);
    assert!(manager.initProcess.is_none());
}

#[test]
fn disk_table_holds_all_disks() {
    let _one = Disk::new();
    let disks = Disks::new();
    assert_eq!(disks.0.len(), 10);
}
